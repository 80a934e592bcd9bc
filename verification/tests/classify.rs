use std::collections::HashMap;

use dejavu::binary64::Binary64;
use dejavu::chat::{
    ChatResponse, Choice, Classifier, ContentLogprob, Logprobs, Message, TokenLogprob, TokenPayload,
};
use dejavu::classify::{classify, find_most_probable, Action, ClassifyResponse};
use dejavu::error::ClassifyError;
use dejavu::formula::Formula;
use dejavu::request::ClassifyRequest;

fn number(x: f64) -> Binary64 {
    Binary64 { bits: x.to_bits() }
}

fn value(x: &Binary64) -> f64 {
    f64::from_bits(x.bits)
}

fn evaluate(formula: &Formula) -> Binary64 {
    number(match formula {
        Formula::ExpSum(list) => list.iter().fold(0.0, |sum, x| sum + value(x).exp()),
        Formula::Sum(list) => list.iter().fold(0.0, |sum, x| sum + value(x)),
        Formula::Product(a, b) => value(a) * value(b),
        Formula::Quotient(a, b) => value(a) / value(b),
        Formula::Complement(a) => 1.0 - value(a),
        Formula::Log(a) => value(a).ln(),
    })
}

/// A model whose next tokens depend on what it has said.
struct Model {
    thoughts: Option<&'static str>,
    tokens: HashMap<&'static str, Vec<(&'static str, f64)>>,
}

fn model(tokens: &[(&'static str, &[(&'static str, f64)])]) -> Model {
    Model {
        thoughts: Some(" a refund "),
        tokens: tokens.iter().map(|(said, list)| (*said, list.to_vec())).collect(),
    }
}

impl Model {
    fn think(&self) -> ChatResponse {
        ChatResponse {
            choices: vec![Choice {
                message: Some(Message {
                    reasoning: self.thoughts.map(str::to_owned),
                    reasoning_content: None,
                }),
                logprobs: None,
            }],
        }
    }

    fn go_on(&self, payload: &TokenPayload) -> ChatResponse {
        let said = &payload.messages[2].content["choice:".len()..];
        let list = self.tokens.get(said).cloned().unwrap_or_default();
        ChatResponse {
            choices: vec![Choice {
                message: None,
                logprobs: Some(Logprobs {
                    content: vec![ContentLogprob {
                        top_logprobs: list
                            .into_iter()
                            .map(|(token, p)| TokenLogprob {
                                token: token.to_owned(),
                                logprob: number(p.ln()),
                            })
                            .collect(),
                    }],
                }),
            }],
        }
    }
}

fn request(options: &[&str]) -> ClassifyRequest {
    ClassifyRequest {
        model: None,
        state: "s".to_owned(),
        question: "q".to_owned(),
        options: options.iter().map(|option| option.to_string()).collect(),
        thinking_budget: 64,
        max_tokens: 4,
        top_logprobs: 20,
        mass_tolerance: number(1e-5),
    }
}

struct Trace {
    result: Result<ClassifyResponse, ClassifyError>,
    asked: Vec<(String, Vec<String>)>,
    prompts: Vec<String>,
}

fn run(model: &Model, request: ClassifyRequest) -> Trace {
    let classifier =
        Classifier::new("http://h/v1".to_owned(), "own".to_owned(), "EMPTY".to_owned());
    let mut asked = Vec::new();
    let mut prompts = Vec::new();
    let mut classification = match classify(&classifier, request) {
        Ok(classification) => classification,
        Err(error) => return Trace { result: Err(error), asked, prompts },
    };
    loop {
        classification = match classification.action() {
            Action::Reason(payload) => {
                prompts.push(payload.messages[1].content.clone());
                classification.reply(&model.think())
            }
            Action::Continue(payload) => {
                prompts.push(payload.messages[1].content.clone());
                asked.push((payload.messages[2].content.clone(), payload.choice.clone()));
                classification.reply(&model.go_on(&payload))
            }
            Action::Compute(list) => classification.supply(list.iter().map(evaluate).collect()),
            Action::Describe(x) => classification.describe(&format!("{:.6}", value(&x))),
            Action::Finish => {
                return Trace { result: classification.result().unwrap(), asked, prompts };
            }
        };
    }
}

fn upstream(trace: Trace) -> String {
    match trace.result {
        Err(ClassifyError::Upstream(message)) => message,
        other => panic!("{other:?}"),
    }
}

fn probabilities(response: &ClassifyResponse) -> Vec<f64> {
    response.candidate_probabilities.iter().map(|(_, p)| value(p)).collect()
}

#[test]
fn one_token_decides() {
    let trace = run(
        &model(&[(" ", &[("pay", 0.75), ("b", 0.25)])]),
        request(&["payments", "bugs"]),
    );
    assert_eq!(
        trace.asked,
        vec![("choice: ".to_owned(), vec!["payments".to_owned(), "bugs".to_owned()])]
    );
    let response = trace.result.ok().unwrap();
    assert_eq!(response.model, "own");
    assert_eq!(response.answer, "choice: payments");
    assert_eq!(response.probability_scope, "normalized across the listed options");
    assert_eq!(response.shared_prefix_removed, "");
    assert_eq!(response.thinking_budget, 64);
    assert_eq!(response.vllm_requests, 2);
    let a = 0.75f64.ln().exp();
    let b = 0.25f64.ln().exp();
    assert_eq!(probabilities(&response), vec![a / (a + b), b / (a + b)]);
    let logs: Vec<Option<f64>> =
        response.candidate_logprobs.iter().map(|(_, x)| x.as_ref().map(value)).collect();
    assert_eq!(logs, vec![Some((a / (a + b)).ln()), Some((b / (a + b)).ln())]);
    let labels: Vec<&str> =
        response.candidate_probabilities.iter().map(|(label, _)| label.as_str()).collect();
    assert_eq!(labels, vec!["payments", "bugs"]);
}

#[test]
fn the_thoughts_go_into_the_second_prompt() {
    let trace =
        run(&model(&[(" ", &[("p", 1.0)])]), request(&["payments", "bugs"]));
    assert_eq!(trace.prompts.len(), 2);
    assert!(!trace.prompts[0].contains("Prior analysis"));
    assert!(trace.prompts[1]
        .contains("Prior analysis to use as context without repeating it: \"a refund\""));
}

#[test]
fn a_named_model_is_asked() {
    let mut asked = request(&["payments", "bugs"]);
    asked.model = Some("other".to_owned());
    let trace = run(&model(&[(" ", &[("p", 1.0)])]), asked);
    assert_eq!(trace.result.ok().unwrap().model, "other");
}

#[test]
fn shared_beginnings_are_followed() {
    let trace = run(
        &model(&[
            (" go ", &[("l", 0.5), ("right", 0.25), ("lo", 0.25)]),
            (" go l", &[("eft", 0.5), ("ow", 0.25), ("", 0.25)]),
        ]),
        request(&["go left", "go right", "go low"]),
    );
    assert_eq!(
        trace.asked,
        vec![
            (
                "choice: go ".to_owned(),
                vec!["left".to_owned(), "right".to_owned(), "low".to_owned()]
            ),
            ("choice: go l".to_owned(), vec!["eft".to_owned(), "ow".to_owned()]),
        ]
    );
    let response = trace.result.ok().unwrap();
    assert_eq!(response.shared_prefix_removed, "go ");
    assert_eq!(response.vllm_requests, 3);
    let l = 1.0 * 0.5f64.ln().exp();
    let left = l * 0.5f64.ln().exp();
    let low = l * 0.25f64.ln().exp() + 1.0 * 0.25f64.ln().exp();
    let right = 1.0 * 0.25f64.ln().exp();
    let total = left + right + low;
    assert_eq!(probabilities(&response), vec![left / total, right / total, low / total]);
    assert_eq!(response.answer, "choice: go low");
}

#[test]
fn a_token_that_is_given_twice_counts_twice() {
    let trace = run(
        &model(&[(" ", &[("b", 0.25), ("p", 0.5), ("b", 0.25), ("b", 0.25)])]),
        request(&["payments", "bugs"]),
    );
    let quarter = 0.25f64.ln().exp();
    let b = quarter + quarter + quarter;
    let p = 0.5f64.ln().exp();
    let response = trace.result.ok().unwrap();
    assert_eq!(probabilities(&response), vec![p / (p + b), b / (p + b)]);
    assert_eq!(response.answer, "choice: bugs");
}

#[test]
fn an_option_that_no_token_leads_to_has_no_logarithm() {
    let trace = run(
        &model(&[(" ", &[("pay", 0.5), ("zzz", 0.5)])]),
        request(&["payments", "bugs"]),
    );
    let response = trace.result.ok().unwrap();
    assert_eq!(probabilities(&response), vec![1.0, 0.0]);
    assert_eq!(response.candidate_logprobs[0].1.as_ref().map(value), Some(0.0));
    assert_eq!(response.candidate_logprobs[1].1, None);
    assert_eq!(response.candidate_logprobs[1].0, "bugs");
}

#[test]
fn too_little_mass_is_a_failure() {
    let trace = run(
        &model(&[(" ", &[("pay", 0.5), ("b", 0.25)])]),
        request(&["payments", "bugs"]),
    );
    assert_eq!(
        upstream(trace),
        "top_logprobs covered only 0.750000 probability mass at prefix \" \"; increase top_logprobs"
    );
    let mut tolerant = request(&["payments", "bugs"]);
    tolerant.mass_tolerance = number(0.26);
    assert!(run(&model(&[(" ", &[("pay", 0.5), ("b", 0.25)])]), tolerant).result.is_ok());
}

#[test]
fn too_few_tokens_is_a_failure() {
    let tokens: &[(&'static str, &[(&'static str, f64)])] =
        &[(" ", &[("p", 0.5), ("b", 0.5)]), (" p", &[("a", 1.0)]), (" pa", &[("y", 0.5), ("r", 0.5)])];
    let mut short = request(&["pay", "part", "bugs"]);
    short.max_tokens = 1;
    assert_eq!(
        upstream(run(&model(tokens), short)),
        "prefix \" p\" is still ambiguous after 1 tokens; increase max_tokens"
    );
    let mut short = request(&["pay", "part", "bugs"]);
    short.max_tokens = 2;
    assert_eq!(
        upstream(run(&model(tokens), short)),
        "prefix \" pa\" is still ambiguous after 2 tokens; increase max_tokens"
    );
    let mut enough = request(&["pay", "part", "bugs"]);
    enough.max_tokens = 3;
    assert_eq!(run(&model(tokens), enough).result.ok().unwrap().vllm_requests, 4);
}

#[test]
fn the_order_of_the_tokens_does_not_help() {
    for list in [[("b", 0.5), ("p", 0.5)], [("p", 0.5), ("b", 0.5)]] {
        let mut short = request(&["pay", "part", "bugs"]);
        short.max_tokens = 1;
        assert_eq!(
            upstream(run(&model(&[(" ", &list)]), short)),
            "prefix \" p\" is still ambiguous after 1 tokens; increase max_tokens"
        );
    }
}

#[test]
fn no_match_at_all_is_a_failure() {
    let trace = run(&model(&[(" ", &[("zzz", 1.0)])]), request(&["payments", "bugs"]));
    assert_eq!(upstream(trace), "no returned token prefix matched any option");
}

#[test]
fn a_silent_model_is_a_failure() {
    let trace = run(&model(&[]), request(&["payments", "bugs"]));
    assert_eq!(upstream(trace), "vLLM returned an empty top_logprobs list");
    let mut mute = model(&[]);
    mute.thoughts = None;
    let trace = run(&mute, request(&["payments", "bugs"]));
    assert!(trace.asked.is_empty());
    assert_eq!(
        upstream(trace),
        "vLLM did not return reasoning content; start it with --reasoning-parser qwen3"
    );
}

#[test]
fn a_refused_request_asks_nothing() {
    let trace = run(&model(&[]), request(&["payments"]));
    assert!(trace.prompts.is_empty());
    match trace.result {
        Err(error) => {
            assert_eq!(error.into_answer(), (400, "at least two options are required".to_owned()))
        }
        other => panic!("{other:?}"),
    }
}

#[test]
fn of_equal_options_the_last_wins() {
    assert_eq!(find_most_probable(&vec![number(0.5), number(0.5)]), 1);
    assert_eq!(find_most_probable(&vec![number(0.5), number(0.25), number(0.25)]), 0);
    assert_eq!(find_most_probable(&vec![number(0.1), number(0.6), number(0.3)]), 1);
    assert_eq!(find_most_probable(&vec![number(1.0), number(f64::NAN)]), 1);
}

/// The scores by plain recursion, with the requests in the order of the tokens.
fn recurse(
    model: &Model,
    said: String,
    rests: Vec<(String, String)>,
    weight: f64,
    depth: usize,
    max_tokens: usize,
    requests: &mut usize,
) -> Option<HashMap<String, f64>> {
    *requests += 1;
    let list = model.tokens.get(said.as_str())?;
    let mut order: Vec<&str> = Vec::new();
    let mut sums: HashMap<&str, f64> = HashMap::new();
    for (token, p) in list {
        if !order.contains(token) {
            order.push(token);
        }
        *sums.entry(token).or_default() += p.ln().exp();
    }
    let mut scores: HashMap<String, f64> =
        rests.iter().map(|(label, _)| (label.clone(), 0.0)).collect();
    for token in order {
        if token.is_empty() {
            continue;
        }
        let kept: Vec<(String, String)> = rests
            .iter()
            .filter_map(|(label, rest)| {
                rest.strip_prefix(token).map(|rest| (label.clone(), rest.to_owned()))
            })
            .collect();
        if kept.is_empty() {
            continue;
        }
        let branch = weight * sums[token];
        if kept.len() == 1 {
            *scores.get_mut(&kept[0].0).unwrap() += branch;
            continue;
        }
        if depth + 1 >= max_tokens {
            return None;
        }
        let deeper = recurse(
            model,
            said.clone() + token,
            kept,
            branch,
            depth + 1,
            max_tokens,
            requests,
        )?;
        for (label, score) in deeper {
            *scores.get_mut(&label).unwrap() += score;
        }
    }
    Some(scores)
}

#[test]
fn the_walk_arrives_where_recursion_does() {
    let tokens: &[(&'static str, &[(&'static str, f64)])] = &[
        (" t", &[("a", 0.25), ("e", 0.25), ("am", 0.125), ("ab", 0.125), ("x", 0.25)]),
        (" ta", &[("b", 0.5), ("m", 0.25), ("p", 0.25)]),
        (" tab", &[("le", 0.5), ("let", 0.25), ("oo", 0.25)]),
        (" table", &[("s", 0.5), ("t", 0.5)]),
        (" te", &[("a", 0.75), ("n", 0.25)]),
        (" tea", &[("m", 0.5), ("r", 0.5)]),
        (" tam", &[("e", 0.5), ("p", 0.5)]),
    ];
    let model = model(tokens);
    let options =
        ["tables", "tablet", "taboo", "tame", "tamp", "tape", "team", "tear", "tend"];
    for max_tokens in 1..6 {
        let mut asked = request(&options);
        asked.max_tokens = max_tokens;
        let trace = run(&model, asked);
        let mut requests = 0;
        let rests =
            options.iter().map(|option| (option.to_string(), option[1..].to_owned())).collect();
        match recurse(&model, " t".to_owned(), rests, 1.0, 0, max_tokens, &mut requests) {
            None => assert!(trace.result.is_err(), "{max_tokens}"),
            Some(scores) => {
                let response = trace.result.ok().unwrap();
                let total = options.iter().fold(0.0, |sum, option| sum + scores[*option]);
                let expected: Vec<f64> =
                    options.iter().map(|option| scores[*option] / total).collect();
                assert_eq!(probabilities(&response), expected);
                assert_eq!(response.vllm_requests, requests + 1);
                assert_eq!(response.vllm_requests, trace.prompts.len());
                for (content, choice) in &trace.asked {
                    for text in choice {
                        let answer = format!("{content}{text}");
                        assert!(options.contains(&answer.strip_prefix("choice: ").unwrap()));
                        assert!(!text.is_empty());
                    }
                }
            }
        }
    }
}

#[test]
fn a_budget_beyond_the_limit_is_no_matter_to_a_refusal() {
    let classifier =
        Classifier::new("http://h/v1".to_owned(), "own".to_owned(), "EMPTY".to_owned());
    let mut refused = request(&["payments"]);
    refused.thinking_budget = usize::MAX;
    assert!(matches!(classify(&classifier, refused), Err(ClassifyError::BadRequest(_))));
    let mut accepted = request(&["payments", "bugs"]);
    accepted.thinking_budget = usize::MAX;
    let classification = classify(&classifier, accepted).ok().unwrap();
    assert_eq!(classification.case.thinking_budget, usize::MAX);
}

#[test]
fn probabilities_are_close_to_the_exact_ones() {
    let trace = run(
        &model(&[
            (" go ", &[("l", 0.5), ("right", 0.25), ("lo", 0.125), ("", 0.0625), ("x", 0.0625)]),
            (" go l", &[("eft", 0.5), ("o", 0.25), ("ow", 0.25)]),
        ]),
        request(&["go left", "go right", "go low"]),
    );
    let found = probabilities(&trace.result.ok().unwrap());
    let left = 0.5 * 0.5;
    let right = 0.25;
    let low = 0.5 * (0.25 + 0.25) + 0.125;
    let total = left + right + low;
    for (p, exact) in found.iter().zip([left / total, right / total, low / total]) {
        assert!((p - exact).abs() < 1e-12);
    }
    assert!((found.iter().sum::<f64>() - 1.0).abs() < 1e-12);
}

#[test]
fn a_request_without_a_reply_ends_the_classification() {
    let classifier =
        Classifier::new("http://h/v1".to_owned(), "own".to_owned(), "EMPTY".to_owned());
    let model = model(&[(" ", &[("p", 0.5), ("b", 0.5)])]);
    for replies in [0usize, 1] {
        let mut classification =
            classify(&classifier, request(&["payments", "bugs"])).ok().unwrap();
        if replies == 1 {
            classification = classification.reply(&model.think());
        }
        let asks = matches!(classification.action(), Action::Reason(_) | Action::Continue(_));
        assert!(asks);
        let over = classification.fail(ClassifyError::Upstream("cannot reach vLLM: x".to_owned()));
        assert!(matches!(over.action(), Action::Finish));
        match over.result() {
            Some(Err(ClassifyError::Upstream(message))) => {
                assert_eq!(message, "cannot reach vLLM: x");
            }
            other => panic!("{other:?}"),
        }
    }
}
