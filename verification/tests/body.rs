use dejavu::body::Json;
use dejavu::chat::{reasoning_payload, token_payload};
use serde_json::Value;

fn value(json: Json) -> Value {
    match json {
        Json::Bool(flag) => Value::from(flag),
        Json::Count(count) => Value::from(count),
        Json::Real(real) => Value::from(f64::from_bits(real.bits)),
        Json::Text(text) => Value::from(text),
        Json::List(items) => items.into_iter().map(value).collect(),
        Json::Object(members) => {
            members.into_iter().map(|(key, member)| (key, value(member))).collect()
        }
    }
}

#[test]
fn the_body_that_has_the_model_think() {
    let expected: Value = serde_json::from_str(
        r#"{
            "model": "m",
            "messages": [
                {
                    "role": "system",
                    "content": "Analyze the classification briefly. After thinking, return exactly one value from question.options without explanation."
                },
                {"role": "user", "content": "p"}
            ],
            "chat_template_kwargs": {"enable_thinking": true, "preserve_thinking": false},
            "reasoning_effort": "low",
            "thinking_token_budget": 64,
            "max_tokens": 80,
            "temperature": 1.0,
            "top_p": 0.95,
            "top_k": 20
        }"#,
    )
    .unwrap();
    assert_eq!(value(reasoning_payload("m", "p", 64).body()), expected);
}

#[test]
fn the_body_that_asks_how_the_model_goes_on() {
    let expected: Value = serde_json::from_str(
        r#"{
            "model": "m",
            "messages": [
                {
                    "role": "system",
                    "content": "You are a deterministic classifier. Do not explain or reason out loud. Complete the answer with exactly one allowed key."
                },
                {"role": "user", "content": "p"},
                {"role": "assistant", "content": "choice: go "}
            ],
            "add_generation_prompt": false,
            "continue_final_message": true,
            "chat_template_kwargs": {"enable_thinking": false},
            "max_tokens": 1,
            "temperature": 0.0,
            "logprobs": true,
            "top_logprobs": 7,
            "structured_outputs": {"choice": ["left", "right"]}
        }"#,
    )
    .unwrap();
    let allowed = vec!["left".to_owned(), "right".to_owned()];
    assert_eq!(value(token_payload("m", "p", " go ", 7, allowed).body()), expected);
}
