use world_weaver::game::protocol::{DecodeErrorKind, TurnOutput};
use world_weaver::llm::OutputMessage;

fn sample_output() -> TurnOutput {
    TurnOutput {
        text: "The door creaks open.".into(),
        image_description: "a rusty door in the rain".into(),
        image_caption: "The door".into(),
        secret_info: "the key is hidden".into(),
        proposed_next_actions: vec![
            "Enter the yard".into(),
            "Call out".into(),
            "Wait".into(),
        ],
        input_tokens: 12,
        output_tokens: 34,
    }
}

fn msg(text: &str) -> OutputMessage {
    OutputMessage { input_tokens: 12, output_tokens: 34, text: text.into() }
}

#[test]
fn decode_of_encode_round_trips() {
    let original = sample_output();
    let wire = original.to_llm_format();
    let decoded = TurnOutput::decode(msg(&wire)).unwrap();
    assert_eq!(decoded, original);
}

#[test]
fn decode_trims_whitespace() {
    let wire = "  desc \n<<<EOID>>>\n cap \n<<<EOIC>>>\n text \n<<<EOO>>>\n secret \n<<<EOS>>>\n a \n<<<EOA>>>\n b \n<<<EOA>>>\n c ";
    let out = TurnOutput::decode(msg(wire)).unwrap();
    assert_eq!(out.image_description, "desc");
    assert_eq!(out.image_caption, "cap");
    assert_eq!(out.text, "text");
    assert_eq!(out.secret_info, "secret");
    assert_eq!(out.proposed_next_actions, vec!["a".to_string(), "b".into(), "c".into()]);
    assert_eq!(out.input_tokens, 12);
    assert_eq!(out.output_tokens, 34);
}

#[test]
fn too_few_actions_fails() {
    // only two action segments after the last delimiter
    let wire = "d<<<EOID>>>c<<<EOIC>>>t<<<EOO>>>s<<<EOS>>>one<<<EOA>>>two";
    let err = TurnOutput::decode(msg(wire)).unwrap_err();
    assert_eq!(err.kind, DecodeErrorKind::TooFewProposedActions);
    assert_eq!(err.raw, wire);
}

#[test]
fn extra_actions_keep_the_first_three() {
    let wire = "d<<<EOID>>>c<<<EOIC>>>t<<<EOO>>>s<<<EOS>>>one<<<EOA>>>two<<<EOA>>>three<<<EOA>>>garbage";
    let out = TurnOutput::decode(msg(wire)).unwrap();
    assert_eq!(
        out.proposed_next_actions,
        vec!["one".to_string(), "two".into(), "three".into()]
    );
}

#[test]
fn each_missing_delimiter_is_reported() {
    let cases = [
        ("no delimiters at all", DecodeErrorKind::MissingEoid),
        ("d<<<EOID>>>rest", DecodeErrorKind::MissingEoic),
        ("d<<<EOID>>>c<<<EOIC>>>rest", DecodeErrorKind::MissingEoo),
        ("d<<<EOID>>>c<<<EOIC>>>t<<<EOO>>>rest", DecodeErrorKind::MissingEos),
    ];
    for (wire, kind) in cases {
        let err = TurnOutput::decode(msg(wire)).unwrap_err();
        assert_eq!(err.kind, kind, "wire: {wire}");
    }
}

#[test]
fn duplicated_delimiter_fails_like_a_missing_one() {
    let wire = "d<<<EOID>>>x<<<EOID>>>c<<<EOIC>>>t<<<EOO>>>s<<<EOS>>>a<<<EOA>>>b<<<EOA>>>c";
    let err = TurnOutput::decode(msg(wire)).unwrap_err();
    assert_eq!(err.kind, DecodeErrorKind::MissingEoid);
}
