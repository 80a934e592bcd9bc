use dejavu::binary64::Binary64;
use dejavu::error::ClassifyError;
use dejavu::request::{
    accept, default_mass_tolerance, default_max_tokens, default_state, default_thinking_budget,
    default_top_logprobs, ClassifyRequest,
};

fn request(options: &[&str]) -> ClassifyRequest {
    ClassifyRequest {
        model: None,
        state: default_state(),
        question: "Which department should handle this?".to_owned(),
        options: options.iter().map(|option| option.to_string()).collect(),
        thinking_budget: default_thinking_budget(),
        max_tokens: default_max_tokens(),
        top_logprobs: default_top_logprobs(),
        mass_tolerance: default_mass_tolerance(),
    }
}

fn complaint(request: &ClassifyRequest) -> String {
    match request.validate() {
        Err(ClassifyError::BadRequest(message)) => message,
        other => panic!("{other:?}"),
    }
}

#[test]
fn defaults() {
    assert_eq!(default_state(), "subject: Refund request\nbody: I was charged twice");
    assert_eq!(default_thinking_budget(), 64);
    assert_eq!(default_max_tokens(), 4);
    assert_eq!(default_top_logprobs(), 20);
    assert_eq!(f64::from_bits(default_mass_tolerance().bits), 1e-5);
}

#[test]
fn a_good_request_is_valid() {
    assert!(request(&["payments", "bugs"]).validate().is_ok());
}

#[test]
fn each_objection_has_its_message() {
    assert_eq!(complaint(&request(&[])), "at least two options are required");
    assert_eq!(complaint(&request(&["one"])), "at least two options are required");
    assert_eq!(complaint(&request(&["one", " \t"])), "option text cannot be empty");
    assert_eq!(
        complaint(&request(&["one", "two\"", "two\"", "one"])),
        "duplicate option: \"two\\\"\""
    );
    let mut none = request(&["one", "two"]);
    none.thinking_budget = 0;
    assert_eq!(complaint(&none), "thinking_budget must be at least 1");
    let mut none = request(&["one", "two"]);
    none.max_tokens = 0;
    assert_eq!(complaint(&none), "max_tokens must be at least 1");
    let mut none = request(&["one", "two"]);
    none.top_logprobs = 0;
    assert_eq!(complaint(&none), "top_logprobs must be at least 1");
    for tolerance in [1.0, -0.1, f64::NAN, f64::INFINITY] {
        let mut wrong = request(&["one", "two"]);
        wrong.mass_tolerance = Binary64 { bits: tolerance.to_bits() };
        assert_eq!(complaint(&wrong), "mass_tolerance must be in [0, 1)");
    }
}

#[test]
fn the_first_objection_is_reported() {
    let mut wrong = request(&["one", "one"]);
    wrong.max_tokens = 0;
    wrong.thinking_budget = 0;
    assert_eq!(complaint(&wrong), "duplicate option: \"one\"");
    wrong.options = vec!["one".to_owned(), "two".to_owned()];
    assert_eq!(complaint(&wrong), "thinking_budget must be at least 1");
}

#[test]
fn accepting_trims_and_splits_the_options() {
    let accepted = accept(request(&["  go left ", "go right\n", "\tgo up"])).ok().unwrap();
    assert_eq!(accepted.request.options, vec!["go left", "go right", "go up"]);
    assert_eq!(accepted.shared_prefix, "go ");
    let rests: Vec<(&str, &str)> = accepted
        .remaining
        .iter()
        .map(|c| (c.label.as_str(), c.suffix.as_str()))
        .collect();
    assert_eq!(rests, vec![("go left", "left"), ("go right", "right"), ("go up", "up")]);
}

#[test]
fn options_that_become_equal_by_trimming_are_refused() {
    match accept(request(&["one ", " one"])) {
        Err(ClassifyError::BadRequest(message)) => assert_eq!(message, "duplicate option: \"one\""),
        other => panic!("{other:?}"),
    }
}

#[test]
fn a_clash_after_trimming_is_refused() {
    match accept(request(&["refunds", " ref "])) {
        Err(ClassifyError::BadRequest(message)) => assert_eq!(
            message,
            "option \"ref\" is a prefix of \"refunds\"; the options cannot be distinguished without an EOS probability"
        ),
        other => panic!("{other:?}"),
    }
}
