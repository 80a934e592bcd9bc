use dejavu::candidate::{remove_shared_prefix, Candidate};
use dejavu::chat::TokenLogprob;
use dejavu::binary64::Binary64;
use dejavu::error::ClassifyError;
use dejavu::tokens::{group_tokens, match_candidates, narrow};

fn list(options: &[&str]) -> Vec<String> {
    options.iter().map(|option| option.to_string()).collect()
}

fn split(options: &[&str]) -> (String, Vec<(String, String)>) {
    let (prefix, remaining) = remove_shared_prefix(&list(options)).ok().unwrap();
    (prefix, remaining.into_iter().map(|c| (c.label, c.suffix)).collect())
}

fn clash(options: &[&str]) -> String {
    match remove_shared_prefix(&list(options)) {
        Err(ClassifyError::BadRequest(message)) => message,
        other => panic!("{other:?}"),
    }
}

#[test]
fn nothing_shared() {
    let (prefix, rests) = split(&["payments", "bugs"]);
    assert_eq!(prefix, "");
    assert_eq!(
        rests,
        vec![
            ("payments".to_owned(), "payments".to_owned()),
            ("bugs".to_owned(), "bugs".to_owned())
        ]
    );
}

#[test]
fn the_longest_shared_prefix_is_removed() {
    let (prefix, rests) = split(&["straße 1", "straße 22", "straßenbahn"]);
    assert_eq!(prefix, "straße");
    assert_eq!(rests[0].1, " 1");
    assert_eq!(rests[1].1, " 22");
    assert_eq!(rests[2].1, "nbahn");
    for (label, rest) in rests {
        assert_eq!(label, prefix.clone() + &rest);
    }
}

#[test]
fn characters_of_several_bytes_are_not_cut() {
    let (prefix, rests) = split(&["é", "è"]);
    assert_eq!(prefix, "");
    assert_eq!(rests[1].1, "è");
}

#[test]
fn a_single_option_is_all_shared() {
    let (prefix, rests) = split(&["only"]);
    assert_eq!(prefix, "only");
    assert_eq!(rests, vec![("only".to_owned(), String::new())]);
}

#[test]
fn an_option_that_begins_another_is_refused() {
    let tail = "; the options cannot be distinguished without an EOS probability";
    assert_eq!(clash(&["pay", "payments"]), format!("option \"pay\" is a prefix of \"payments\"{tail}"));
    assert_eq!(clash(&["payments", "pay"]), format!("option \"pay\" is a prefix of \"payments\"{tail}"));
    assert_eq!(clash(&["a", "b", "a"]), format!("option \"a\" is a prefix of \"a\"{tail}"));
    assert_eq!(clash(&["x", ""]), format!("option \"\" is a prefix of \"x\"{tail}"));
}

#[test]
fn the_first_clash_is_reported() {
    let message = clash(&["b", "aa", "a", "bb"]);
    assert!(message.starts_with("option \"b\" is a prefix of \"bb\""), "{message}");
}

fn alternative(token: &str, logprob: f64) -> TokenLogprob {
    TokenLogprob { token: token.to_owned(), logprob: Binary64 { bits: logprob.to_bits() } }
}

#[test]
fn alternatives_are_grouped_in_order_of_appearance() {
    let groups = group_tokens(&vec![
        alternative("b", -1.0),
        alternative("a", -2.0),
        alternative("b", -3.0),
        alternative("", -4.0),
    ]);
    let shown: Vec<(String, Vec<f64>)> = groups
        .into_iter()
        .map(|g| (g.token, g.logprobs.into_iter().map(|x| f64::from_bits(x.bits)).collect()))
        .collect();
    assert_eq!(
        shown,
        vec![
            ("b".to_owned(), vec![-1.0, -3.0]),
            ("a".to_owned(), vec![-2.0]),
            (String::new(), vec![-4.0])
        ]
    );
    assert!(group_tokens(&Vec::new()).is_empty());
}

fn candidates(pairs: &[(&str, &str)]) -> Vec<Candidate> {
    pairs
        .iter()
        .map(|(label, suffix)| Candidate { label: label.to_string(), suffix: suffix.to_string() })
        .collect()
}

#[test]
fn a_token_keeps_the_candidates_that_go_on_with_it() {
    let all = candidates(&[("go left", "left"), ("go right", "right"), ("go lower", "lower")]);
    assert_eq!(match_candidates(&all, "l"), vec![0, 2]);
    assert_eq!(match_candidates(&all, "right"), vec![1]);
    assert_eq!(match_candidates(&all, "right now"), Vec::<usize>::new());
    assert_eq!(match_candidates(&all, ""), vec![0, 1, 2]);
    let kept = narrow(&all, &vec![0, 2], 1);
    let shown: Vec<(&str, &str)> =
        kept.iter().map(|c| (c.label.as_str(), c.suffix.as_str())).collect();
    assert_eq!(shown, vec![("go left", "eft"), ("go lower", "ower")]);
}
