use dejavu::prompt::build_prompt;
use serde_json::Value;

fn list(options: &[&str]) -> Vec<String> {
    options.iter().map(|option| option.to_string()).collect()
}

fn expected(state: &str, question: &str, options: &[String], reasoning: Option<&str>) -> String {
    let mut object = serde_json::Map::new();
    object.insert("type".to_owned(), Value::String("choice".to_owned()));
    object.insert("instructions".to_owned(), Value::String(question.to_owned()));
    object.insert("options".to_owned(), Value::from(options.to_vec()));
    let mut parts =
        vec!["Select exactly one value from question.options. Return only that value.".to_owned()];
    parts.push(format!("state = {state}"));
    if let Some(text) = reasoning {
        parts.push(format!(
            "Prior analysis to use as context without repeating it: {}",
            serde_json::to_string(text).unwrap()
        ));
    }
    parts.push(format!("question = {}", Value::Object(object)));
    parts.join("\n\n")
}

#[test]
fn the_prompt_has_three_parts() {
    assert_eq!(
        build_prompt("body: hi", "Which?", &list(&["a", "b c"]), None),
        "Select exactly one value from question.options. Return only that value.\n\nstate = body: hi\n\nquestion = {\"instructions\":\"Which?\",\"options\":[\"a\",\"b c\"],\"type\":\"choice\"}"
    );
}

#[test]
fn an_analysis_stands_before_the_question() {
    assert_eq!(
        build_prompt("s", "q", &list(&["a", "b"]), Some("it\nis \"a\"")),
        "Select exactly one value from question.options. Return only that value.\n\nstate = s\n\nPrior analysis to use as context without repeating it: \"it\\nis \\\"a\\\"\"\n\nquestion = {\"instructions\":\"q\",\"options\":[\"a\",\"b\"],\"type\":\"choice\"}"
    );
}

#[test]
fn json_is_escaped() {
    let odd = "\u{0}\u{1}\u{8}\t\n\u{B}\u{C}\r\u{1B}\u{1F} \"/\\\u{7F}é\u{2028}😀";
    let prompt = build_prompt("s", odd, &list(&[odd, ""]), Some(odd));
    let json = "\"\\u0000\\u0001\\b\\t\\n\\u000b\\f\\r\\u001b\\u001f \\\"/\\\\\u{7F}é\u{2028}😀\"";
    assert!(prompt.contains(&format!("{{\"instructions\":{json},\"options\":[{json},\"\"],\"type\"")));
    assert_eq!(prompt, expected("s", odd, &list(&[odd, ""]), Some(odd)));
}

#[test]
fn every_character_is_written_as_in_json() {
    let mut all = String::new();
    for code in 0..0x300u32 {
        all.push(char::from_u32(code).unwrap());
    }
    let options = list(&["x", &all]);
    assert_eq!(build_prompt(&all, &all, &options, None), expected(&all, &all, &options, None));
    assert_eq!(build_prompt("", "", &[], Some("")), expected("", "", &[], Some("")));
}
