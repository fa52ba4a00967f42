use world_weaver::game::protocol::{DecodeErrorKind, TurnOutput};
use world_weaver::game::turn_stream::TurnStream;
use world_weaver::llm::OutputMessage;

#[test]
fn a_streamed_turn_is_split_into_its_parts() {
    let mut machine = TurnStream::new();
    // the caption delimiter closes the image description early
    let r = machine.feed("a rusty door<<<EOID>>>The door<<<EOIC>>>Once upon").unwrap();
    let img = r.image.expect("image description published");
    assert_eq!(img.description, "a rusty door");
    assert_eq!(img.caption, "The door");
    assert!(r.emitted.is_none());
    // the pending prefix is prepended to the first emitted chunk
    let r = machine.feed(" a time.").unwrap();
    assert_eq!(r.emitted.as_deref(), Some("Once upon a time."));
    assert!(r.image.is_none());
    let r = machine.feed(" The end.<<<EOO>>>secret").unwrap();
    assert_eq!(r.emitted.as_deref(), Some(" The end."));
    // after the narrative delimiter, deltas are discarded
    let r = machine.feed("<<<EOS>>>whatever").unwrap();
    assert!(r.emitted.is_none() && r.image.is_none());
}

#[test]
fn a_buffer_without_the_description_delimiter_fails() {
    let mut machine = TurnStream::new();
    let err = machine.feed("no delimiter here<<<EOIC>>>tail").unwrap_err();
    assert_eq!(err.kind, DecodeErrorKind::MissingEoid);
    assert_eq!(err.raw, "no delimiter here");
}

#[test]
fn the_completion_is_decoded_as_the_authoritative_result() {
    // the full text of the final event is re-parsed independently
    let full = "a rusty door\n<<<EOID>>>\nThe door\n<<<EOIC>>>\nOnce upon a time.\n<<<EOO>>>\nsecret\n<<<EOS>>>\none\n<<<EOA>>>\ntwo\n<<<EOA>>>\nthree";
    let out = TurnOutput::decode(OutputMessage {
        input_tokens: 3,
        output_tokens: 4,
        text: full.into(),
    })
    .unwrap();
    assert_eq!(out.image_description, "a rusty door");
    assert_eq!(out.image_caption, "The door");
    assert_eq!(out.text, "Once upon a time.");
    assert_eq!(out.secret_info, "secret");
    assert_eq!(out.proposed_next_actions, vec!["one".to_string(), "two".into(), "three".into()]);
}
