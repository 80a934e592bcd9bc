//! The options of a question while the model spells one of them out.

use vstd::prelude::*;
use vstd::string::*;

use crate::error::{ClassifyError, Failure};
use crate::text::{debug_form, shared_length, show_debug, starts_with, texts};

verus! {

/// An option that is still possible, and the part of it that is not yet said.
#[derive(Debug)]
pub struct Candidate {
    pub label: String,
    pub suffix: String,
}

/// What a `Candidate` holds.
pub struct Entry {
    pub label: Seq<char>,
    pub suffix: Seq<char>,
}

impl View for Candidate {
    type V = Entry;

    open spec fn view(&self) -> Entry {
        Entry { label: self.label@, suffix: self.suffix@ }
    }
}

/// What each candidate of a list holds.
pub open spec fn entries(list: Seq<Candidate>) -> Seq<Entry> {
    list.map_values(|candidate: Candidate| candidate@)
}

/// What is not yet said of each candidate.
pub open spec fn suffixes(list: Seq<Entry>) -> Seq<Seq<char>> {
    list.map_values(|entry: Entry| entry.suffix)
}

/// One text begins with the other.
pub open spec fn clash(a: Seq<char>, b: Seq<char>) -> bool {
    a.is_prefix_of(b) || b.is_prefix_of(a)
}

/// No text of the list begins with another one of it.
pub open spec fn prefix_free(list: Seq<Seq<char>>) -> bool {
    forall|i: int, j: int|
        0 <= i < list.len() && 0 <= j < list.len() && i != j ==> !(#[trigger] list[i]).is_prefix_of(
            #[trigger] list[j],
        )
}

/// The first text of `others` that clashes with `option`, as the pair of the
/// shorter and the longer one.
pub open spec fn first_clash_with(option: Seq<char>, others: Seq<Seq<char>>) -> Option<
    (Seq<char>, Seq<char>),
>
    decreases others.len(),
{
    if others.len() == 0 {
        None
    } else if clash(option, others[0]) {
        if option.len() <= others[0].len() {
            Some((option, others[0]))
        } else {
            Some((others[0], option))
        }
    } else {
        first_clash_with(option, others.skip(1))
    }
}

/// The first pair of options of which one begins with the other.
pub open spec fn first_clash(options: Seq<Seq<char>>) -> Option<(Seq<char>, Seq<char>)>
    decreases options.len(),
{
    if options.len() == 0 {
        None
    } else {
        match first_clash_with(options[0], options.skip(1)) {
            Some(pair) => Some(pair),
            None => first_clash(options.skip(1)),
        }
    }
}

/// What is said of two options of which one begins with the other.
pub open spec fn clash_message(shorter: Seq<char>, longer: Seq<char>) -> Seq<char> {
    "option "@ + debug_form(shorter) + " is a prefix of "@ + debug_form(
        longer,
    ) + "; the options cannot be distinguished without an EOS probability"@
}

/// The characters that two texts share at their beginning.
pub open spec fn common(a: Seq<char>, b: Seq<char>) -> Seq<char>
    decreases a.len(),
{
    if a.len() > 0 && b.len() > 0 && a[0] == b[0] {
        seq![a[0]] + common(a.skip(1), b.skip(1))
    } else {
        seq![]
    }
}

/// The characters that all options share at their beginning.
pub open spec fn shared_prefix(options: Seq<Seq<char>>) -> Seq<char>
    decreases options.len(),
{
    if options.len() == 0 {
        seq![]
    } else if options.len() == 1 {
        options[0]
    } else {
        common(shared_prefix(options.drop_last()), options.last())
    }
}

/// Each option with what follows its first `n` characters.
pub open spec fn after(options: Seq<Seq<char>>, n: int) -> Seq<Entry> {
    options.map_values(|option: Seq<char>| Entry { label: option, suffix: option.skip(n) })
}

/// The shared beginning of two texts, by its length.
proof fn lemma_common_length(a: Seq<char>, b: Seq<char>, n: int)
    requires
        0 <= n <= a.len(),
        n <= b.len(),
        a.take(n) == b.take(n),
        n == a.len() || n == b.len() || a[n] != b[n],
    ensures
        common(a, b) == a.take(n),
    decreases n,
{
    if n == 0 {
        assert(a.take(0) =~= seq![]);
    } else {
        assert(a.take(n)[0] == a[0] && b.take(n)[0] == b[0]);
        assert(a.skip(1).take(n - 1) =~= a.take(n).skip(1));
        assert(b.skip(1).take(n - 1) =~= b.take(n).skip(1));
        lemma_common_length(a.skip(1), b.skip(1), n - 1);
        assert(seq![a[0]] + a.skip(1).take(n - 1) =~= a.take(n));
    }
}

/// The shared beginning of two texts begins both of them, and every text that
/// begins both of them begins it.
proof fn lemma_common_longest(a: Seq<char>, b: Seq<char>)
    ensures
        common(a, b).is_prefix_of(a),
        common(a, b).is_prefix_of(b),
        forall|other: Seq<char>|
            other.is_prefix_of(a) && other.is_prefix_of(b) ==> #[trigger] other.is_prefix_of(
                common(a, b),
            ),
    decreases a.len(),
{
    if a.len() > 0 && b.len() > 0 && a[0] == b[0] {
        let rest = common(a.skip(1), b.skip(1));
        lemma_common_longest(a.skip(1), b.skip(1));
        assert forall|i: int| 0 <= i < common(a, b).len() implies common(a, b)[i] == a[i]
            && common(a, b)[i] == b[i] by {
            if i > 0 {
                assert(rest[i - 1] == a.skip(1)[i - 1]);
                assert(rest[i - 1] == b.skip(1)[i - 1]);
            }
        }
        assert(common(a, b) =~= a.subrange(0, common(a, b).len() as int));
        assert(common(a, b) =~= b.subrange(0, common(a, b).len() as int));
        assert forall|other: Seq<char>|
            other.is_prefix_of(a) && other.is_prefix_of(b) implies #[trigger] other.is_prefix_of(
            common(a, b),
        ) by {
            if other.len() > 0 {
                assert(other.skip(1) =~= a.skip(1).subrange(0, other.len() - 1));
                assert(other.skip(1) =~= b.skip(1).subrange(0, other.len() - 1));
                assert(other.skip(1).is_prefix_of(rest));
                assert forall|i: int| 0 <= i < other.len() implies other[i] == common(a, b)[i] by {
                    if i > 0 {
                        assert(other.skip(1)[i - 1] == rest.subrange(0, other.len() - 1)[i - 1]);
                    } else {
                        assert(other[0] == a.subrange(0, other.len() as int)[0]);
                    }
                }
                assert(other =~= common(a, b).subrange(0, other.len() as int));
            } else {
                assert(other =~= common(a, b).subrange(0, 0));
            }
        }
    } else {
        assert(common(a, b) =~= a.subrange(0, 0));
        assert(common(a, b) =~= b.subrange(0, 0));
        assert forall|other: Seq<char>|
            other.is_prefix_of(a) && other.is_prefix_of(b) implies #[trigger] other.is_prefix_of(
            common(a, b),
        ) by {
            if other.len() > 0 {
                assert(other[0] == a.subrange(0, other.len() as int)[0]);
                assert(other[0] == b.subrange(0, other.len() as int)[0]);
            } else {
                assert(other =~= common(a, b).subrange(0, 0));
            }
        }
    }
}

/// Prefixes compose.
proof fn lemma_prefix_transitive(a: Seq<char>, b: Seq<char>, c: Seq<char>)
    requires
        a.is_prefix_of(b),
        b.is_prefix_of(c),
    ensures
        a.is_prefix_of(c),
{
    assert forall|i: int| 0 <= i < a.len() implies a[i] == c[i] by {
        assert(a[i] == b.subrange(0, a.len() as int)[i]);
        assert(b[i] == c.subrange(0, b.len() as int)[i]);
    }
    assert(a =~= c.subrange(0, a.len() as int));
}

/// The shared prefix begins every option, and every text that begins all of
/// them begins it: nothing longer is shared.
pub proof fn law_shared_prefix_longest(options: Seq<Seq<char>>)
    requires
        options.len() >= 1,
    ensures
        forall|i: int| 0 <= i < options.len() ==> shared_prefix(options).is_prefix_of(#[trigger] options[i]),
        forall|other: Seq<char>|
            (forall|i: int| 0 <= i < options.len() ==> other.is_prefix_of(#[trigger] options[i]))
                ==> #[trigger] other.is_prefix_of(shared_prefix(options)),
    decreases options.len(),
{
    if options.len() == 1 {
        assert(options[0] =~= options[0].subrange(0, options[0].len() as int));
    } else {
        let front = options.drop_last();
        law_shared_prefix_longest(front);
        lemma_common_longest(shared_prefix(front), options.last());
        assert forall|i: int| 0 <= i < options.len() implies shared_prefix(options).is_prefix_of(
            #[trigger] options[i],
        ) by {
            if i < front.len() {
                assert(front[i] == options[i]);
                lemma_prefix_transitive(shared_prefix(options), shared_prefix(front), options[i]);
            }
        }
        assert forall|other: Seq<char>|
            (forall|i: int| 0 <= i < options.len() ==> other.is_prefix_of(#[trigger] options[i]))
            implies #[trigger] other.is_prefix_of(shared_prefix(options)) by {
            assert forall|i: int| 0 <= i < front.len() implies other.is_prefix_of(#[trigger] front[i]) by {
                assert(other.is_prefix_of(options[i]));
            }
            assert(other.is_prefix_of(options[options.len() - 1]));
        }
    }
}

/// The refusal where the option at `at` clashes with one that comes after it.
fn clash_with(options: &[String], at: usize) -> (found: Option<ClassifyError>)
    requires
        at < options.len(),
    ensures
        match first_clash_with(
            texts(options@)[at as int],
            texts(options@).skip(at + 1),
        ) {
            None => found is None,
            Some((shorter, longer)) => found matches Some(error) && error@ == Failure::BadRequest(
                clash_message(shorter, longer),
            ),
        },
{
    let ghost all = texts(options@);
    let option: &String = &options[at];
    let mut j: usize = at + 1;
    while j < options.len()
        invariant
            all == texts(options@),
            at < j <= options.len(),
            option@ == all[at as int],
            first_clash_with(all[at as int], all.skip(at + 1)) == first_clash_with(
                all[at as int],
                all.skip(j as int),
            ),
        decreases options.len() - j,
    {
        let other: &String = &options[j];
        let forward: bool = starts_with(other.as_str(), option.as_str());
        let backward: bool = starts_with(option.as_str(), other.as_str());
        proof {
            assert(all.skip(j as int)[0] == other@);
            assert(all.skip(j as int).skip(1) =~= all.skip(j + 1));
            if forward && backward {
                assert(option@.len() == other@.len());
                assert(option@ =~= other@);
            }
        }
        if forward || backward {
            let mut message: String = "option ".to_owned();
            if forward {
                message.append(show_debug(option.as_str()).as_str());
                message.append(" is a prefix of ");
                message.append(show_debug(other.as_str()).as_str());
            } else {
                message.append(show_debug(other.as_str()).as_str());
                message.append(" is a prefix of ");
                message.append(show_debug(option.as_str()).as_str());
            }
            message.append("; the options cannot be distinguished without an EOS probability");
            return Some(ClassifyError::BadRequest(message));
        }
        j = j + 1;
    }
    None
}

/// Splits off what all options have in common at their beginning. Options of
/// which one begins with another cannot be told apart and are refused.
pub fn remove_shared_prefix(options: &[String]) -> (result: Result<
    (String, Vec<Candidate>),
    ClassifyError,
>)
    requires
        options.len() >= 1,
    ensures
        match first_clash(texts(options@)) {
            Some((shorter, longer)) => result matches Err(error) && error@ == Failure::BadRequest(
                clash_message(shorter, longer),
            ),
            None => result matches Ok((prefix, remaining)) && prefix@ == shared_prefix(
                texts(options@),
            ) && entries(remaining@) == after(texts(options@), prefix@.len() as int),
        },
{
    let ghost all = texts(options@);
    let mut i: usize = 0;
    proof {
        assert(all.skip(0) =~= all);
    }
    while i < options.len()
        invariant
            all == texts(options@),
            i <= options.len(),
            first_clash(all) == first_clash(all.skip(i as int)),
        decreases options.len() - i,
    {
        proof {
            assert(all.skip(i as int)[0] == all[i as int]);
            assert(all.skip(i as int).skip(1) =~= all.skip(i + 1));
        }
        if let Some(error) = clash_with(options, i) {
            return Err(error);
        }
        i = i + 1;
    }
    let mut prefix: String = options[0].clone();
    let mut k: usize = 1;
    proof {
        assert(all.take(1) =~= seq![all[0]]);
    }
    while k < options.len()
        invariant
            all == texts(options@),
            1 <= k <= options.len(),
            prefix@ == shared_prefix(all.take(k as int)),
        decreases options.len() - k,
    {
        let n: usize = shared_length(prefix.as_str(), options[k].as_str());
        proof {
            lemma_common_length(prefix@, all[k as int], n as int);
            assert(all.take(k + 1).drop_last() =~= all.take(k as int));
            assert(all.take(k + 1).last() == all[k as int]);
            assert(prefix@.take(n as int) =~= prefix@.subrange(0, n as int));
        }
        prefix = prefix.as_str().substring_char(0, n).to_owned();
        k = k + 1;
    }
    proof {
        assert(all.take(all.len() as int) =~= all);
        law_shared_prefix_longest(all);
    }
    let start: usize = prefix.as_str().unicode_len();
    let mut remaining: Vec<Candidate> = Vec::new();
    let mut m: usize = 0;
    while m < options.len()
        invariant
            all == texts(options@),
            m <= options.len(),
            start == prefix@.len(),
            forall|i: int| 0 <= i < all.len() ==> prefix@.is_prefix_of(#[trigger] all[i]),
            entries(remaining@) == after(all, start as int).take(m as int),
        decreases options.len() - m,
    {
        let option: &String = &options[m];
        proof {
            assert(prefix@.is_prefix_of(all[m as int]));
        }
        let end: usize = option.as_str().unicode_len();
        let suffix: String = option.as_str().substring_char(start, end).to_owned();
        let candidate: Candidate = Candidate { label: option.clone(), suffix };
        proof {
            assert(option@.subrange(start as int, end as int) =~= option@.skip(start as int));
            assert(candidate@ == after(all, start as int)[m as int]);
            assert(entries(remaining@.push(candidate)) =~= entries(remaining@).push(candidate@));
        }
        remaining.push(candidate);
        proof {
            assert(entries(remaining@) =~= after(all, start as int).take(m + 1));
        }
        m = m + 1;
    }
    proof {
        assert(after(all, start as int).take(all.len() as int) =~= after(all, start as int));
    }
    Ok((prefix, remaining))
}

/// Every option is split into the shared prefix and what is left of it, in the
/// order of the options, and what is left does not all begin alike.
pub proof fn law_split(options: Seq<Seq<char>>)
    requires
        options.len() >= 1,
    ensures
        ({
            let head = shared_prefix(options);
            let rests = after(options, head.len() as int);
            &&& rests.len() == options.len()
            &&& forall|i: int|
                0 <= i < options.len() ==> (#[trigger] rests[i]).label == options[i] && head
                    + rests[i].suffix == options[i]
            &&& rests[0].suffix.len() > 0 ==> exists|i: int|
                0 <= i < rests.len() && ((#[trigger] rests[i]).suffix.len() == 0
                    || rests[i].suffix[0] != rests[0].suffix[0])
        }),
{
    let head = shared_prefix(options);
    let rests = after(options, head.len() as int);
    law_shared_prefix_longest(options);
    assert forall|i: int| 0 <= i < options.len() implies (#[trigger] rests[i]).label == options[i]
        && head + rests[i].suffix == options[i] by {
        assert(head.is_prefix_of(options[i]));
        assert forall|k: int| 0 <= k < head.len() implies head[k] == options[i][k] by {
            assert(head[k] == options[i].subrange(0, head.len() as int)[k]);
        }
        assert(head + options[i].skip(head.len() as int) =~= options[i]);
    }
    if rests[0].suffix.len() > 0 && forall|i: int|
        0 <= i < rests.len() ==> (#[trigger] rests[i]).suffix.len() > 0 && rests[i].suffix[0]
            == rests[0].suffix[0] {
        let c = rests[0].suffix[0];
        let longer = head.push(c);
        assert forall|i: int| 0 <= i < options.len() implies longer.is_prefix_of(
            #[trigger] options[i],
        ) by {
            assert(head + rests[i].suffix == options[i]);
            assert(rests[i].suffix[0] == c);
            assert(longer =~= options[i].subrange(0, longer.len() as int));
        }
        assert(longer.is_prefix_of(head));
    }
}

/// A clash is found at the first option that begins with another or begins
/// another, with the first option after it that does so; the one that begins
/// the other is named first.
pub proof fn law_first_clash(options: Seq<Seq<char>>)
    ensures
        match first_clash(options) {
            None => forall|i: int, j: int|
                0 <= i < options.len() && 0 <= j < options.len() && i != j ==> !(
                #[trigger] options[i]).is_prefix_of(#[trigger] options[j]),
            Some((shorter, longer)) => exists|i: int, j: int|
                #![trigger options[i], options[j]]
                {
                    &&& 0 <= i < j < options.len()
                    &&& shorter.is_prefix_of(longer)
                    &&& (shorter == options[i] && longer == options[j]) || (shorter == options[j]
                        && longer == options[i])
                    &&& forall|a: int, b: int|
                        #![trigger options[a], options[b]]
                        0 <= a < b < options.len() && (a < i || (a == i && b < j)) ==> !(
                        options[a].is_prefix_of(options[b])) && !(options[b].is_prefix_of(
                            options[a],
                        ))
                },
        },
    decreases options.len(),
{
    if options.len() > 0 {
        let head = options[0];
        let rest = options.skip(1);
        assert(forall|k: int| 0 <= k < rest.len() ==> #[trigger] rest[k] == options[k + 1]);
        lemma_first_clash_with(head, rest);
        law_first_clash(rest);
        match first_clash_with(head, rest) {
            Some((shorter, longer)) => {
                let j = choose|j: int|
                    #![trigger rest[j]]
                    {
                        &&& 0 <= j < rest.len()
                        &&& shorter.is_prefix_of(longer)
                        &&& (shorter == head && longer == rest[j]) || (shorter == rest[j] && longer
                            == head)
                        &&& forall|b: int|
                            0 <= b < j ==> !head.is_prefix_of(#[trigger] rest[b])
                                && !rest[b].is_prefix_of(head)
                    };
                assert forall|a: int, b: int|
                    #![trigger options[a], options[b]]
                    0 <= a < b < options.len() && (a < 0 || (a == 0 && b < j + 1)) implies !(
                options[a].is_prefix_of(options[b])) && !(options[b].is_prefix_of(options[a])) by {
                    assert(rest[b - 1] == options[b]);
                }
                assert(options[0] == head && options[j + 1] == rest[j]);
            },
            None => {
                assert forall|b: int| 0 < b < options.len() implies !head.is_prefix_of(
                    #[trigger] options[b],
                ) && !options[b].is_prefix_of(head) by {
                    assert(rest[b - 1] == options[b]);
                }
                match first_clash(rest) {
                    None => {
                        assert forall|i: int, j: int|
                            0 <= i < options.len() && 0 <= j < options.len() && i != j implies !(
                        #[trigger] options[i]).is_prefix_of(#[trigger] options[j]) by {
                            if i > 0 && j > 0 {
                                assert(rest[i - 1] == options[i] && rest[j - 1] == options[j]);
                            }
                        }
                    },
                    Some((shorter, longer)) => {
                        let (i, j) = choose|i: int, j: int|
                            #![trigger rest[i], rest[j]]
                            {
                                &&& 0 <= i < j < rest.len()
                                &&& shorter.is_prefix_of(longer)
                                &&& (shorter == rest[i] && longer == rest[j]) || (shorter == rest[j]
                                    && longer == rest[i])
                                &&& forall|a: int, b: int|
                                    #![trigger rest[a], rest[b]]
                                    0 <= a < b < rest.len() && (a < i || (a == i && b < j)) ==> !(
                                    rest[a].is_prefix_of(rest[b])) && !(rest[b].is_prefix_of(
                                        rest[a],
                                    ))
                            };
                        assert(options[i + 1] == rest[i] && options[j + 1] == rest[j]);
                        assert forall|a: int, b: int|
                            #![trigger options[a], options[b]]
                            0 <= a < b < options.len() && (a < i + 1 || (a == i + 1 && b < j + 1)) implies !(
                        options[a].is_prefix_of(options[b])) && !(options[b].is_prefix_of(
                            options[a],
                        )) by {
                            if a > 0 {
                                assert(rest[a - 1] == options[a] && rest[b - 1] == options[b]);
                            }
                        }
                    },
                }
            },
        }
    }
}

/// The first of a list that clashes with an option.
proof fn lemma_first_clash_with(option: Seq<char>, others: Seq<Seq<char>>)
    ensures
        match first_clash_with(option, others) {
            None => forall|k: int|
                0 <= k < others.len() ==> !option.is_prefix_of(#[trigger] others[k])
                    && !others[k].is_prefix_of(option),
            Some((shorter, longer)) => exists|j: int|
                #![trigger others[j]]
                {
                    &&& 0 <= j < others.len()
                    &&& shorter.is_prefix_of(longer)
                    &&& (shorter == option && longer == others[j]) || (shorter == others[j]
                        && longer == option)
                    &&& forall|b: int|
                        0 <= b < j ==> !option.is_prefix_of(#[trigger] others[b])
                            && !others[b].is_prefix_of(option)
                },
        },
    decreases others.len(),
{
    if others.len() > 0 {
        let rest = others.skip(1);
        assert(forall|k: int| 0 <= k < rest.len() ==> #[trigger] rest[k] == others[k + 1]);
        lemma_first_clash_with(option, rest);
        if !clash(option, others[0]) {
            match first_clash_with(option, rest) {
                None => {
                    assert forall|k: int| 0 <= k < others.len() implies !option.is_prefix_of(
                        #[trigger] others[k],
                    ) && !others[k].is_prefix_of(option) by {
                        if k > 0 {
                            assert(rest[k - 1] == others[k]);
                        }
                    }
                },
                Some((shorter, longer)) => {
                    let j = choose|j: int|
                        #![trigger rest[j]]
                        {
                            &&& 0 <= j < rest.len()
                            &&& shorter.is_prefix_of(longer)
                            &&& (shorter == option && longer == rest[j]) || (shorter == rest[j]
                                && longer == option)
                            &&& forall|b: int|
                                0 <= b < j ==> !option.is_prefix_of(#[trigger] rest[b])
                                    && !rest[b].is_prefix_of(option)
                        };
                    assert(others[j + 1] == rest[j]);
                    assert forall|b: int| 0 <= b < j + 1 implies !option.is_prefix_of(
                        #[trigger] others[b],
                    ) && !others[b].is_prefix_of(option) by {
                        if b > 0 {
                            assert(rest[b - 1] == others[b]);
                        }
                    }
                },
            }
        } else {
            assert(others[0].len() == option.len() && clash(option, others[0]) ==> others[0]
                =~= option);
        }
    }
}

} // verus!
