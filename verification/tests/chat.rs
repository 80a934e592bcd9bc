use dejavu::binary64::Binary64;
use dejavu::chat::{
    decoding_error, read_alternatives, read_reasoning, reasoning_payload, settle,
    status_accepted, status_error, token_payload, unreachable_error, ChatResponse, Choice, Classifier,
    ContentLogprob, Logprobs, Message, TokenLogprob, CHAT_PATH,
};
use dejavu::error::ClassifyError;

fn classifier(base_url: &str, api_key: &str) -> Classifier {
    Classifier::new(base_url.to_owned(), "m".to_owned(), api_key.to_owned())
}

fn upstream(error: ClassifyError) -> String {
    match error {
        ClassifyError::Upstream(message) => message,
        other => panic!("{other:?}"),
    }
}

#[test]
fn slashes_at_the_end_of_the_base_url_are_dropped() {
    for url in ["http://127.0.0.1:8000/v1", "http://127.0.0.1:8000/v1/", "http://127.0.0.1:8000/v1//"] {
        assert_eq!(
            classifier(url, "").endpoint(CHAT_PATH),
            "http://127.0.0.1:8000/v1/chat/completions"
        );
    }
    assert_eq!(classifier("/", "").endpoint("/x"), "/x");
    assert_eq!(classifier("", "").default_model(), "m");
    let copy = classifier("http://h/", "k").clone();
    assert_eq!(copy.endpoint(CHAT_PATH), "http://h/chat/completions");
    assert_eq!(copy.bearer_token(), Some("k".to_owned()));
}

#[test]
fn an_empty_key_is_not_sent() {
    assert_eq!(classifier("u", "").bearer_token(), None);
    assert_eq!(classifier("u", "EMPTY").bearer_token(), Some("EMPTY".to_owned()));
}

#[test]
fn statuses() {
    for status in [100u16, 199, 300, 400, 404, 500, 502] {
        assert!(!status_accepted(status));
    }
    for status in [200u16, 201, 204, 299] {
        assert!(status_accepted(status));
    }
}

#[test]
fn failures_of_the_service() {
    assert_eq!(upstream(unreachable_error("refused")), "cannot reach vLLM: refused");
    assert_eq!(upstream(status_error(503, "busy")), "vLLM returned HTTP 503: busy");
    assert_eq!(upstream(decoding_error("eof")), "invalid vLLM response: eof");
}

#[test]
fn the_status_comes_before_the_body() {
    let reply = || ChatResponse { choices: vec![Choice { message: None, logprobs: None }] };
    for status in [100u16, 199, 300, 404, 503] {
        let message = format!("vLLM returned HTTP {status}: busy");
        assert_eq!(upstream(settle(status, "busy", Ok(reply())).err().unwrap()), message);
        let undecoded = settle(status, "busy", Err("eof".to_owned()));
        assert_eq!(upstream(undecoded.err().unwrap()), message);
    }
    for status in [200u16, 204, 299] {
        assert_eq!(settle(status, "busy", Ok(reply())).ok().unwrap().choices.len(), 1);
        let undecoded = settle(status, "busy", Err("eof".to_owned()));
        assert_eq!(upstream(undecoded.err().unwrap()), "invalid vLLM response: eof");
    }
}

#[test]
fn answers_to_failures() {
    assert_eq!(
        ClassifyError::BadRequest("no".to_owned()).into_answer(),
        (400, "no".to_owned())
    );
    assert_eq!(ClassifyError::Upstream("down".to_owned()).into_answer(), (502, "down".to_owned()));
}

#[test]
fn the_reasoning_payload() {
    let payload = reasoning_payload("m", "p", 64);
    assert_eq!(payload.model, "m");
    let turns: Vec<(&str, &str)> =
        payload.messages.iter().map(|t| (t.role.as_str(), t.content.as_str())).collect();
    assert_eq!(
        turns,
        vec![
            ("system", "Analyze the classification briefly. After thinking, return exactly one value from question.options without explanation."),
            ("user", "p"),
        ]
    );
    assert!(payload.enable_thinking);
    assert!(!payload.preserve_thinking);
    assert_eq!(payload.reasoning_effort, "low");
    assert_eq!(payload.thinking_token_budget, 64);
    assert_eq!(payload.max_tokens, 80);
    assert_eq!(f64::from_bits(payload.temperature.bits), 1.0);
    assert_eq!(f64::from_bits(payload.top_p.bits), 0.95);
    assert_eq!(payload.top_k, 20);
}

#[test]
fn the_token_payload() {
    let payload = token_payload("m", "p", " go ", 7, vec!["left".to_owned(), "right".to_owned()]);
    let turns: Vec<(&str, &str)> =
        payload.messages.iter().map(|t| (t.role.as_str(), t.content.as_str())).collect();
    assert_eq!(
        turns,
        vec![
            ("system", "You are a deterministic classifier. Do not explain or reason out loud. Complete the answer with exactly one allowed key."),
            ("user", "p"),
            ("assistant", "choice: go "),
        ]
    );
    assert!(!payload.add_generation_prompt);
    assert!(payload.continue_final_message);
    assert!(!payload.enable_thinking);
    assert_eq!(payload.max_tokens, 1);
    assert_eq!(f64::from_bits(payload.temperature.bits), 0.0);
    assert!(payload.logprobs);
    assert_eq!(payload.top_logprobs, 7);
    assert_eq!(payload.choice, vec!["left", "right"]);
}

fn thought(reasoning: Option<&str>, content: Option<&str>) -> ChatResponse {
    ChatResponse {
        choices: vec![Choice {
            message: Some(Message {
                reasoning: reasoning.map(str::to_owned),
                reasoning_content: content.map(str::to_owned),
            }),
            logprobs: None,
        }],
    }
}

#[test]
fn reasoning_is_read_under_either_name() {
    assert_eq!(read_reasoning(&thought(Some(" a "), Some("b"))).ok().unwrap(), "a");
    assert_eq!(read_reasoning(&thought(None, Some("\nb"))).ok().unwrap(), "b");
}

#[test]
fn missing_reasoning_is_a_failure() {
    let missing = "vLLM did not return reasoning content; start it with --reasoning-parser qwen3";
    for response in [
        thought(None, None),
        thought(Some(" "), None),
        thought(Some(""), Some("b")),
        thought(None, Some("\t")),
    ] {
        assert_eq!(upstream(read_reasoning(&response).err().unwrap()), missing);
    }
    let nothing = ChatResponse { choices: vec![] };
    assert_eq!(upstream(read_reasoning(&nothing).err().unwrap()), "vLLM did not return a message");
    let no_message = ChatResponse { choices: vec![Choice { message: None, logprobs: None }] };
    assert_eq!(upstream(read_reasoning(&no_message).err().unwrap()), "vLLM did not return a message");
}

fn scored(content: Option<Vec<Vec<(&str, f64)>>>) -> ChatResponse {
    ChatResponse {
        choices: vec![Choice {
            message: None,
            logprobs: content.map(|tokens| Logprobs {
                content: tokens
                    .into_iter()
                    .map(|list| ContentLogprob {
                        top_logprobs: list
                            .into_iter()
                            .map(|(token, x)| TokenLogprob {
                                token: token.to_owned(),
                                logprob: Binary64 { bits: x.to_bits() },
                            })
                            .collect(),
                    })
                    .collect(),
            }),
        }],
    }
}

#[test]
fn alternatives_are_those_of_the_first_token() {
    let response = scored(Some(vec![vec![("a", -0.5), ("b", -1.5)], vec![("c", 0.0)]]));
    let list = read_alternatives(&response).ok().unwrap();
    let shown: Vec<(&str, f64)> =
        list.iter().map(|item| (item.token.as_str(), f64::from_bits(item.logprob.bits))).collect();
    assert_eq!(shown, vec![("a", -0.5), ("b", -1.5)]);
}

#[test]
fn missing_alternatives_are_a_failure() {
    let none = "vLLM did not return token logprobs";
    assert_eq!(upstream(read_alternatives(&ChatResponse { choices: vec![] }).err().unwrap()), none);
    assert_eq!(upstream(read_alternatives(&scored(None)).err().unwrap()), none);
    assert_eq!(upstream(read_alternatives(&scored(Some(vec![]))).err().unwrap()), none);
    assert_eq!(
        upstream(read_alternatives(&scored(Some(vec![vec![]]))).err().unwrap()),
        "vLLM returned an empty top_logprobs list"
    );
}
