//! The text that puts a classification question before the model.

use vstd::prelude::*;
use vstd::string::*;

use crate::json::{
    ascending, comma_separated, insert_list, insert_text, lemma_plain_escaped, list_form,
    members_of, new_object, object_form, object_text, string_form, string_text,
};
use crate::text::texts;

verus! {

/// The question as a JSON object.
pub open spec fn question_form(question: Seq<char>, options: Seq<Seq<char>>) -> Seq<char> {
    "{\"instructions\":"@ + string_form(question) + ",\"options\":"@ + list_form(options)
        + ",\"type\":\"choice\"}"@
}

/// The part of a prompt that repeats an earlier analysis, if there is one.
pub open spec fn analysis_part(reasoning: Option<Seq<char>>) -> Seq<char> {
    match reasoning {
        Some(text) => "\n\nPrior analysis to use as context without repeating it: "@ + string_form(
            text,
        ),
        None => seq![],
    }
}

/// The whole prompt.
pub open spec fn prompt_text(
    state: Seq<char>,
    question: Seq<char>,
    options: Seq<Seq<char>>,
    reasoning: Option<Seq<char>>,
) -> Seq<char> {
    "Select exactly one value from question.options. Return only that value."@ + "\n\nstate = "@
        + state + analysis_part(reasoning) + "\n\nquestion = "@ + question_form(question, options)
}

/// The three members of a question, in the order in which they are written.
proof fn lemma_question_form(question: Seq<char>, options: Seq<Seq<char>>)
    ensures
        ascending(seq!["instructions"@, "options"@, "type"@]),
        ({
            let keys = seq!["instructions"@, "options"@, "type"@];
            let members = Map::<Seq<char>, Seq<char>>::empty().insert(
                "type"@,
                string_form("choice"@),
            ).insert("instructions"@, string_form(question)).insert(
                "options"@,
                list_form(options),
            );
            &&& keys.to_set() =~= members.dom()
            &&& object_form(keys, members) == question_form(question, options)
        }),
{
    reveal_strlit("instructions");
    reveal_strlit("options");
    reveal_strlit("type");
    reveal_strlit("choice");
    reveal_strlit("{\"instructions\":");
    reveal_strlit(",\"options\":");
    reveal_strlit(",\"type\":\"choice\"}");
    lemma_plain_escaped("instructions"@);
    lemma_plain_escaped("options"@);
    lemma_plain_escaped("type"@);
    lemma_plain_escaped("choice"@);
    let keys = seq!["instructions"@, "options"@, "type"@];
    assert("instructions"@[0] == 'i' && "options"@[0] == 'o' && "type"@[0] == 't');
    let members = Map::<Seq<char>, Seq<char>>::empty().insert("type"@, string_form("choice"@)).insert(
        "instructions"@,
        string_form(question),
    ).insert("options"@, list_form(options));
    assert(keys.to_set() =~= members.dom()) by {
        assert(keys[0] == "instructions"@ && keys[1] == "options"@ && keys[2] == "type"@);
        assert(keys.contains("instructions"@));
        assert(keys.contains("options"@));
        assert(keys.contains("type"@));
    }
    let pieces = keys.map_values(|key: Seq<char>| string_form(key) + seq![':'] + members[key]);
    reveal_with_fuel(comma_separated, 4);
    assert(pieces.drop_last().drop_last() =~= seq![pieces[0]]);
    assert(pieces.drop_last().last() == pieces[1]);
    assert(object_form(keys, members) =~= question_form(question, options));
}

/// Writes the prompt for a question about `state`, with the prior analysis if
/// one is given.
pub fn build_prompt(
    state: &str,
    question: &str,
    options: &[String],
    reasoning: Option<&str>,
) -> (prompt: String)
    ensures
        prompt@ == prompt_text(
            state@,
            question@,
            texts(options@),
            match reasoning {
                Some(text) => Some(text@),
                None => None,
            },
        ),
{
    let mut object = new_object();
    insert_text(&mut object, "type", "choice");
    insert_text(&mut object, "instructions", question);
    insert_list(&mut object, "options", options);
    proof {
        lemma_question_form(question@, texts(options@));
        assert(seq!["instructions"@, "options"@, "type"@].to_set() == members_of(object).dom());
    }
    let question_data: String = object_text(object);
    let mut prompt: String =
        "Select exactly one value from question.options. Return only that value.".to_owned();
    prompt.append("\n\nstate = ");
    prompt.append(state);
    if let Some(text) = reasoning {
        prompt.append("\n\nPrior analysis to use as context without repeating it: ");
        prompt.append(string_text(text).as_str());
    }
    prompt.append("\n\nquestion = ");
    prompt.append(question_data.as_str());
    proof {
        assert(prompt@ =~= prompt_text(
            state@,
            question@,
            texts(options@),
            match reasoning {
                Some(text) => Some(text@),
                None => None,
            },
        ));
    }
    prompt
}

/// A prompt has its parts one after the other with an empty line between them:
/// what to do, the state as it is, an analysis if there is one as a JSON
/// string, and the question as a JSON object with its kind, its text and its
/// options.
pub proof fn law_prompt(
    state: Seq<char>,
    question: Seq<char>,
    options: Seq<Seq<char>>,
    reasoning: Seq<char>,
)
    ensures
        ({
            let head =
                "Select exactly one value from question.options. Return only that value.\n\nstate = "@
                + state;
            let tail = "\n\nquestion = "@ + object_form(
                seq!["instructions"@, "options"@, "type"@],
                map![
                    "type"@ => string_form("choice"@),
                    "instructions"@ => string_form(question),
                    "options"@ => list_form(options),
                ],
            );
            &&& prompt_text(state, question, options, None) == head + tail
            &&& prompt_text(state, question, options, Some(reasoning)) == head
                + "\n\nPrior analysis to use as context without repeating it: "@ + string_form(
                reasoning,
            ) + tail
        }),
{
    reveal_strlit(
        "Select exactly one value from question.options. Return only that value.\n\nstate = ",
    );
    reveal_strlit("Select exactly one value from question.options. Return only that value.");
    reveal_strlit("\n\nstate = ");
    assert(
    "Select exactly one value from question.options. Return only that value.\n\nstate = "@
        =~= "Select exactly one value from question.options. Return only that value."@
        + "\n\nstate = "@);
    lemma_question_form(question, options);
    let head =
        "Select exactly one value from question.options. Return only that value.\n\nstate = "@
        + state;
    let tail = "\n\nquestion = "@ + question_form(question, options);
    assert(prompt_text(state, question, options, None) =~= head + tail);
    assert(prompt_text(state, question, options, Some(reasoning)) =~= head
        + "\n\nPrior analysis to use as context without repeating it: "@ + string_form(reasoning)
        + tail);
}

} // verus!
