//! What a caller asks, and when it can be served.

use vstd::arithmetic::power2::pow2;
use vstd::prelude::*;
use vstd::string::*;

use crate::binary64::{law_order_by_value, Binary64};
use crate::candidate::{
    after, clash_message, entries, first_clash, law_first_clash, law_split, remove_shared_prefix,
    shared_prefix, Candidate,
};
use crate::error::{ClassifyError, Failure};
use crate::text::{debug_form, law_trimmed, show_debug, texts, trim, trimmed};

verus! {

/// A question about `state` with the options to choose from.
#[derive(Debug)]
pub struct ClassifyRequest {
    /// The model to ask, if it is not the service's own.
    pub model: Option<String>,
    pub state: String,
    pub question: String,
    pub options: Vec<String>,
    /// How many tokens the model may think before it answers.
    pub thinking_budget: usize,
    /// How many tokens may be needed to tell the options apart.
    pub max_tokens: usize,
    /// How many alternatives to ask for at each token.
    pub top_logprobs: usize,
    /// How much probability the alternatives may leave out.
    pub mass_tolerance: Binary64,
}

/// The text that is classified where a request gives none.
pub fn default_state() -> (state: String)
    ensures
        state@ == "subject: Refund request\nbody: I was charged twice"@,
{
    "subject: Refund request\nbody: I was charged twice".to_owned()
}

/// The thinking budget where a request gives none.
pub fn default_thinking_budget() -> (tokens: usize)
    ensures
        tokens == 64,
{
    64
}

/// The number of tokens to tell options apart where a request gives none.
pub fn default_max_tokens() -> (tokens: usize)
    ensures
        tokens == 4,
{
    4
}

/// The number of alternatives where a request gives none.
pub fn default_top_logprobs() -> (count: usize)
    ensures
        count == 20,
{
    20
}

/// How much probability the alternatives may leave out where a request does
/// not say it: the number nearest to one hundred thousandth.
pub fn default_mass_tolerance() -> (tolerance: Binary64)
    ensures
        tolerance.bits == 0x3EE4_F8B5_88E3_68F1,
{
    Binary64 { bits: 0x3EE4_F8B5_88E3_68F1 }
}

/// Some option holds nothing but white space.
pub open spec fn has_blank(options: Seq<Seq<char>>) -> bool {
    exists|i: int| 0 <= i < options.len() && trimmed(#[trigger] options[i]).len() == 0
}

/// The first option that occurs before.
pub open spec fn first_duplicate(options: Seq<Seq<char>>) -> Option<Seq<char>>
    decreases options.len(),
{
    if options.len() == 0 {
        None
    } else {
        match first_duplicate(options.drop_last()) {
            Some(option) => Some(option),
            None => if options.drop_last().contains(options.last()) {
                Some(options.last())
            } else {
                None
            },
        }
    }
}

/// The first objection to a request, if there is one.
pub open spec fn objection(
    options: Seq<Seq<char>>,
    thinking_budget: usize,
    max_tokens: usize,
    top_logprobs: usize,
    mass_tolerance: Binary64,
) -> Option<Seq<char>> {
    if options.len() < 2 {
        Some("at least two options are required"@)
    } else if has_blank(options) {
        Some("option text cannot be empty"@)
    } else if first_duplicate(options) is Some {
        Some("duplicate option: "@ + debug_form(first_duplicate(options)->0))
    } else if thinking_budget < 1 {
        Some("thinking_budget must be at least 1"@)
    } else if max_tokens < 1 {
        Some("max_tokens must be at least 1"@)
    } else if top_logprobs < 1 {
        Some("top_logprobs must be at least 1"@)
    } else if !mass_tolerance.in_unit_interval() {
        Some("mass_tolerance must be in [0, 1)"@)
    } else {
        None
    }
}

/// The options with white space removed at both ends.
pub open spec fn trimmed_options(options: Seq<Seq<char>>) -> Seq<Seq<char>> {
    options.map_values(|option: Seq<char>| trimmed(option))
}

impl ClassifyRequest {
    /// The first objection to this request, if there is one.
    pub open spec fn objection(&self) -> Option<Seq<char>> {
        objection(
            texts(self.options@),
            self.thinking_budget,
            self.max_tokens,
            self.top_logprobs,
            self.mass_tolerance,
        )
    }

    /// Refuses a request that cannot be served.
    pub fn validate(&self) -> (result: Result<(), ClassifyError>)
        ensures
            match self.objection() {
                Some(message) => result matches Err(error) && error@ == Failure::BadRequest(message),
                None => result is Ok,
            },
    {
        let ghost all = texts(self.options@);
        if self.options.len() < 2 {
            return Err(ClassifyError::BadRequest("at least two options are required".to_owned()));
        }
        let mut i: usize = 0;
        while i < self.options.len()
            invariant
                all == texts(self.options@),
                all.len() >= 2,
                i <= self.options.len(),
                forall|k: int| 0 <= k < i ==> trimmed(#[trigger] all[k]).len() > 0,
            decreases self.options.len() - i,
        {
            proof {
                assert(all[i as int] == self.options@[i as int]@);
            }
            if trim(self.options[i].as_str()).as_str().is_empty() {
                return Err(ClassifyError::BadRequest("option text cannot be empty".to_owned()));
            }
            i = i + 1;
        }
        let mut j: usize = 0;
        while j < self.options.len()
            invariant
                all == texts(self.options@),
                all.len() >= 2,
                !has_blank(all),
                j <= self.options.len(),
                first_duplicate(all.take(j as int)) is None,
            decreases self.options.len() - j,
        {
            let option: &String = &self.options[j];
            proof {
                assert(all.take(j + 1).drop_last() =~= all.take(j as int));
                assert(all.take(j + 1).last() == option@);
            }
            if self.occurs_before(j) {
                let mut message: String = "duplicate option: ".to_owned();
                message.append(show_debug(option.as_str()).as_str());
                proof {
                    lemma_first_duplicate_kept(all, j + 1);
                }
                return Err(ClassifyError::BadRequest(message));
            }
            j = j + 1;
        }
        proof {
            assert(all.take(all.len() as int) =~= all);
        }
        if self.thinking_budget < 1 {
            return Err(ClassifyError::BadRequest("thinking_budget must be at least 1".to_owned()));
        }
        if self.max_tokens < 1 {
            return Err(ClassifyError::BadRequest("max_tokens must be at least 1".to_owned()));
        }
        if self.top_logprobs < 1 {
            return Err(ClassifyError::BadRequest("top_logprobs must be at least 1".to_owned()));
        }
        if !self.mass_tolerance.is_in_unit_interval() {
            return Err(ClassifyError::BadRequest("mass_tolerance must be in [0, 1)".to_owned()));
        }
        Ok(())
    }

    /// Whether the option at `at` stands earlier in the list too.
    fn occurs_before(&self, at: usize) -> (result: bool)
        requires
            at < self.options.len(),
        ensures
            result == texts(self.options@).take(at as int).contains(texts(self.options@)[at as int]),
    {
        let ghost all = texts(self.options@);
        let mut k: usize = 0;
        while k < at
            invariant
                all == texts(self.options@),
                k <= at < self.options.len(),
                forall|m: int| 0 <= m < k ==> all[m] != all[at as int],
            decreases at - k,
        {
            proof {
                assert(all[k as int] == self.options@[k as int]@);
                assert(all[at as int] == self.options@[at as int]@);
            }
            if self.options[k] == self.options[at] {
                proof {
                    assert(all.take(at as int)[k as int] == all[at as int]);
                }
                return true;
            }
            k = k + 1;
        }
        proof {
            assert forall|m: int| 0 <= m < at implies all.take(at as int)[m] != all[at as int] by {
                assert(all.take(at as int)[m] == all[m]);
            }
        }
        false
    }
}

/// What occurs twice among the first options occurs twice among all.
proof fn lemma_first_duplicate_kept(options: Seq<Seq<char>>, n: int)
    requires
        0 <= n <= options.len(),
        first_duplicate(options.take(n)) is Some,
    ensures
        first_duplicate(options) == first_duplicate(options.take(n)),
    decreases options.len() - n,
{
    if n == options.len() {
        assert(options.take(n) =~= options);
    } else {
        assert(options.take(n + 1).drop_last() =~= options.take(n));
        lemma_first_duplicate_kept(options, n + 1);
    }
}

/// A request without a first duplicate has pairwise different options, and
/// the other way round.
pub proof fn law_no_first_duplicate(options: Seq<Seq<char>>)
    ensures
        first_duplicate(options) is None <==> options.no_duplicates(),
    decreases options.len(),
{
    if options.len() > 0 {
        let front = options.drop_last();
        law_no_first_duplicate(front);
        if first_duplicate(options) is None {
            assert forall|i: int, j: int|
                0 <= i < options.len() && 0 <= j < options.len() && i != j implies options[i]
                != options[j] by {
                if i < front.len() && j < front.len() {
                    assert(front[i] == options[i] && front[j] == options[j]);
                } else if i < front.len() {
                    assert(front[i] == options[i]);
                    assert(front.contains(options[i]));
                } else {
                    assert(front[j] == options[j]);
                    assert(front.contains(options[j]));
                }
            }
        }
        if options.no_duplicates() {
            assert(front.no_duplicates());
            if front.contains(options.last()) {
                let i = choose|i: int| 0 <= i < front.len() && front[i] == options.last();
                assert(options[i] == options[options.len() - 1]);
            }
        }
    }
}

/// A request that can be served: its options are trimmed and split into the
/// prefix they share and what is left of each.
#[derive(Debug)]
pub struct Accepted {
    pub request: ClassifyRequest,
    pub shared_prefix: String,
    pub remaining: Vec<Candidate>,
}

impl ClassifyRequest {
    /// The options as they are put before the model.
    pub open spec fn offered(&self) -> Seq<Seq<char>> {
        trimmed_options(texts(self.options@))
    }

    /// Why this request is refused, if it is.
    pub open spec fn refusal(&self) -> Option<Seq<char>> {
        let objection = objection(
            self.offered(),
            self.thinking_budget,
            self.max_tokens,
            self.top_logprobs,
            self.mass_tolerance,
        );
        if objection is Some {
            objection
        } else {
            match first_clash(self.offered()) {
                Some((shorter, longer)) => Some(clash_message(shorter, longer)),
                None => None,
            }
        }
    }
}

impl Accepted {
    /// This is what `request` comes to.
    pub open spec fn comes_from(&self, request: ClassifyRequest) -> bool {
        &&& self.request.model == request.model
        &&& self.request.state == request.state
        &&& self.request.question == request.question
        &&& texts(self.request.options@) == request.offered()
        &&& self.request.thinking_budget == request.thinking_budget
        &&& self.request.max_tokens == request.max_tokens
        &&& self.request.top_logprobs == request.top_logprobs
        &&& self.request.mass_tolerance == request.mass_tolerance
        &&& self.shared_prefix@ == shared_prefix(request.offered())
        &&& entries(self.remaining@) == after(
            request.offered(),
            shared_prefix(request.offered()).len() as int,
        )
    }
}

/// Trims the options of a request and refuses it if it cannot be served.
pub fn accept(request: ClassifyRequest) -> (result: Result<Accepted, ClassifyError>)
    ensures
        match request.refusal() {
            Some(message) => result matches Err(error) && error@ == Failure::BadRequest(message),
            None => result matches Ok(accepted) && accepted.comes_from(request),
        },
{
    let mut options: Vec<String> = Vec::new();
    let mut i: usize = 0;
    while i < request.options.len()
        invariant
            i <= request.options.len(),
            options.len() == i,
            forall|k: int| 0 <= k < i ==> (#[trigger] options@[k])@ == trimmed(request.options@[k]@),
        decreases request.options.len() - i,
    {
        options.push(trim(request.options[i].as_str()));
        i = i + 1;
    }
    proof {
        assert(texts(options@) =~= request.offered());
    }
    let request: ClassifyRequest = ClassifyRequest {
        model: request.model,
        state: request.state,
        question: request.question,
        options,
        thinking_budget: request.thinking_budget,
        max_tokens: request.max_tokens,
        top_logprobs: request.top_logprobs,
        mass_tolerance: request.mass_tolerance,
    };
    match request.validate() {
        Err(error) => Err(error),
        Ok(()) => match remove_shared_prefix(request.options.as_slice()) {
            Err(error) => Err(error),
            Ok((shared_prefix, remaining)) => Ok(Accepted { request, shared_prefix, remaining }),
        },
    }
}

/// The first option that occurs before, by its position.
proof fn lemma_first_duplicate_at(options: Seq<Seq<char>>)
    ensures
        first_duplicate(options) matches Some(option) ==> exists|j: int|
            0 <= j < options.len() && #[trigger] options[j] == option && options.take(
                j,
            ).no_duplicates() && options.take(j).contains(option),
    decreases options.len(),
{
    if options.len() > 0 {
        let front = options.drop_last();
        lemma_first_duplicate_at(front);
        match first_duplicate(front) {
            Some(option) => {
                let j = choose|j: int|
                    0 <= j < front.len() && #[trigger] front[j] == option && front.take(
                        j,
                    ).no_duplicates() && front.take(j).contains(option);
                assert(front.take(j) =~= options.take(j));
                assert(options[j] == option);
            },
            None => {
                law_no_first_duplicate(front);
                let j = options.len() - 1;
                assert(options.take(j) =~= front);
                assert(options[j] == options.last());
            },
        }
    }
}

/// A request is valid exactly if it has at least two options, each of them
/// holds something but white space, none occurs twice, the three counts are at
/// least one, and the tolerance is a number from zero up to but less than one.
/// Otherwise the first of these that it breaks is named; of options that occur
/// twice, the one whose second place comes first.
pub proof fn law_objection(
    options: Seq<Seq<char>>,
    thinking_budget: usize,
    max_tokens: usize,
    top_logprobs: usize,
    mass_tolerance: Binary64,
)
    ensures
        ({
            let found = objection(
                options,
                thinking_budget,
                max_tokens,
                top_logprobs,
                mass_tolerance,
            );
            let several = options.len() >= 2;
            let told = forall|i: int|
                0 <= i < options.len() ==> trimmed(#[trigger] options[i]).len() > 0;
            let distinct = forall|i: int, j: int|
                0 <= i < j < options.len() ==> #[trigger] options[i] != #[trigger] options[j];
            let within = !mass_tolerance.stands_for_nothing() && 0 <= mass_tolerance.stands_for()
                < pow2(1074);
            &&& found is None <==> several && told && distinct && thinking_budget >= 1 && max_tokens
                >= 1 && top_logprobs >= 1 && within
            &&& !several ==> found == Some("at least two options are required"@)
            &&& several && !told ==> found == Some("option text cannot be empty"@)
            &&& several && told && !distinct ==> exists|j: int|
                0 <= j < options.len() && found == Some(
                    "duplicate option: "@ + debug_form(#[trigger] options[j]),
                ) && options.take(j).contains(options[j]) && options.take(j).no_duplicates()
            &&& several && told && distinct && thinking_budget < 1 ==> found == Some(
                "thinking_budget must be at least 1"@,
            )
            &&& several && told && distinct && thinking_budget >= 1 && max_tokens < 1 ==> found
                == Some("max_tokens must be at least 1"@)
            &&& several && told && distinct && thinking_budget >= 1 && max_tokens >= 1
                && top_logprobs < 1 ==> found == Some("top_logprobs must be at least 1"@)
            &&& several && told && distinct && thinking_budget >= 1 && max_tokens >= 1
                && top_logprobs >= 1 && !within ==> found == Some(
                "mass_tolerance must be in [0, 1)"@,
            )
        }),
{
    law_no_first_duplicate(options);
    lemma_first_duplicate_at(options);
    law_order_by_value(mass_tolerance, mass_tolerance);
    let distinct = forall|i: int, j: int|
        0 <= i < j < options.len() ==> #[trigger] options[i] != #[trigger] options[j];
    assert(distinct == options.no_duplicates());
}

/// The options that are put before the model are those of the request, in their
/// order, each trimmed.
pub proof fn law_offered(request: ClassifyRequest)
    ensures
        request.offered().len() == request.options@.len(),
        forall|i: int|
            0 <= i < request.options@.len() ==> #[trigger] request.offered()[i] == trimmed(
                request.options@[i]@,
            ),
{
}

/// A request is refused exactly if its trimmed options and its numbers are not
/// valid, or one of the trimmed options begins with another. What is not valid
/// is named first; otherwise the first two such options are, the one that
/// begins the other before it.
pub proof fn law_refusal(request: ClassifyRequest)
    ensures
        ({
            let offered = request.offered();
            let found = objection(
                offered,
                request.thinking_budget,
                request.max_tokens,
                request.top_logprobs,
                request.mass_tolerance,
            );
            let apart = forall|i: int, j: int|
                0 <= i < offered.len() && 0 <= j < offered.len() && i != j ==> !(
                #[trigger] offered[i]).is_prefix_of(#[trigger] offered[j]);
            &&& found is Some ==> request.refusal() == found
            &&& found is None ==> (request.refusal() is None <==> apart)
            &&& found is None && !apart ==> exists|i: int, j: int|
                #![trigger offered[i], offered[j]]
                {
                    &&& 0 <= i < offered.len() && 0 <= j < offered.len() && i != j
                    &&& offered[i].is_prefix_of(offered[j])
                    &&& request.refusal() == Some(
                        "option "@ + debug_form(offered[i]) + " is a prefix of "@ + debug_form(
                            offered[j],
                        ) + "; the options cannot be distinguished without an EOS probability"@,
                    )
                    &&& forall|a: int, b: int|
                        #![trigger offered[a], offered[b]]
                        0 <= a < b < offered.len() && (a < i && a < j || ((a == i || a == j) && b
                            < i + j - a)) ==> !(offered[a].is_prefix_of(offered[b])) && !(
                        offered[b].is_prefix_of(offered[a]))
                }
        }),
{
    law_first_clash(request.offered());
}

/// The converse of what holds of accepted requests: one whose trimmed options
/// are at least two, none of them empty, no two of them equal and none the
/// beginning of another, with counts of at least one and a tolerance from zero
/// up to but less than one, is accepted.
pub proof fn law_acceptable(request: ClassifyRequest)
    requires
        request.options@.len() >= 2,
        forall|i: int|
            0 <= i < request.options@.len() ==> trimmed((#[trigger] request.options@[i])@).len() > 0,
        forall|i: int, j: int|
            0 <= i < request.options@.len() && 0 <= j < request.options@.len() && i != j
                ==> !trimmed((#[trigger] request.options@[i])@).is_prefix_of(
                trimmed((#[trigger] request.options@[j])@),
            ),
        request.thinking_budget >= 1,
        request.max_tokens >= 1,
        request.top_logprobs >= 1,
        !request.mass_tolerance.stands_for_nothing(),
        0 <= request.mass_tolerance.stands_for() < pow2(1074),
    ensures
        request.refusal() is None,
{
    let offered = request.offered();
    law_offered(request);
    assert forall|i: int, j: int|
        0 <= i < offered.len() && 0 <= j < offered.len() && i != j implies !(
    #[trigger] offered[i]).is_prefix_of(#[trigger] offered[j]) by {
        assert(offered[i] == trimmed(request.options@[i]@));
        assert(offered[j] == trimmed(request.options@[j]@));
    }
    assert forall|i: int, j: int| 0 <= i < j < offered.len() implies #[trigger] offered[i]
        != #[trigger] offered[j] by {
        if offered[i] == offered[j] {
            assert(offered[i] =~= offered[j].subrange(0, offered[i].len() as int));
            assert(offered[i].is_prefix_of(offered[j]));
        }
    }
    assert forall|i: int| 0 <= i < offered.len() implies trimmed(#[trigger] offered[i]).len() > 0 by {
        law_trimmed(request.options@[i]@);
        assert(offered[i] == trimmed(request.options@[i]@));
    }
    law_objection(
        offered,
        request.thinking_budget,
        request.max_tokens,
        request.top_logprobs,
        request.mass_tolerance,
    );
    law_refusal(request);
}

/// What an accepted request comes to is the request with its options trimmed,
/// and each option is the shared prefix followed by what is left of it.
pub proof fn law_comes_from(accepted: Accepted, request: ClassifyRequest)
    requires
        accepted.comes_from(request),
        request.options@.len() >= 1,
    ensures
        accepted.request.model == request.model,
        accepted.request.state == request.state,
        accepted.request.question == request.question,
        accepted.request.thinking_budget == request.thinking_budget,
        accepted.request.max_tokens == request.max_tokens,
        accepted.request.top_logprobs == request.top_logprobs,
        accepted.request.mass_tolerance == request.mass_tolerance,
        accepted.request.options@.len() == request.options@.len(),
        accepted.remaining@.len() == request.options@.len(),
        forall|i: int|
            0 <= i < request.options@.len() ==> (#[trigger] accepted.request.options@[i])@
                == trimmed(request.options@[i]@),
        forall|i: int|
            0 <= i < request.options@.len() ==> (#[trigger] accepted.remaining@[i]).label@
                == trimmed(request.options@[i]@) && accepted.shared_prefix@
                + accepted.remaining@[i].suffix@ == trimmed(request.options@[i]@),
{
    let offered = request.offered();
    law_offered(request);
    law_split(offered);
    let rests = after(offered, shared_prefix(offered).len() as int);
    assert(entries(accepted.remaining@).len() == rests.len());
    assert(texts(accepted.request.options@).len() == offered.len());
    assert forall|i: int| 0 <= i < request.options@.len() implies (
    #[trigger] accepted.request.options@[i])@ == trimmed(request.options@[i]@) by {
        assert(texts(accepted.request.options@)[i] == offered[i]);
    }
    assert forall|i: int| 0 <= i < request.options@.len() implies (
    #[trigger] accepted.remaining@[i]).label@ == trimmed(request.options@[i]@)
        && accepted.shared_prefix@ + accepted.remaining@[i].suffix@ == trimmed(
        request.options@[i]@,
    ) by {
        assert(entries(accepted.remaining@)[i] == rests[i]);
        assert(rests[i].label == offered[i]);
    }
}

/// A request is valid as it stands exactly if its own options, untrimmed, and
/// its own numbers are.
pub proof fn law_validity(request: ClassifyRequest)
    ensures
        request.objection() == objection(
            Seq::new(request.options@.len(), |i: int| request.options@[i]@),
            request.thinking_budget,
            request.max_tokens,
            request.top_logprobs,
            request.mass_tolerance,
        ),
{
    assert(texts(request.options@) =~= Seq::new(
        request.options@.len(),
        |i: int| request.options@[i]@,
    ));
}

} // verus!
