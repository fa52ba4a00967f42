use world_weaver::llm::sse_parser::Parser;

#[test]
fn test_parser_streaming() {
    let mut parser = Parser::new();

    // several server-sent events concatenated into one stream
    let sse_data: String = [
        "event: message_start\n",
        "data: {\"type\": \"message_start\", \"message\": {\"id\": \"msg_1\", \"type\": \"message\", \"role\": \"assistant\", \"content\": [], \"model\": \"storyteller-1\", \"stop_reason\": null, \"stop_sequence\": null, \"usage\": {\"input_tokens\": 25, \"output_tokens\": 1}}}\n",
        "\n",
        "event: content_block_start\n",
        "data: {\"type\": \"content_block_start\", \"index\": 0, \"content_block\": {\"type\": \"text\", \"text\": \"\"}}\n",
        "\n",
        "event: content_block_delta\n",
        "data: {\"type\": \"content_block_delta\", \"index\": 0, \"delta\": {\"type\": \"text_delta\", \"text\": \"Hello\"}}\n",
        "\n",
        "event: content_block_delta\n",
        "data: {\"type\": \"content_block_delta\", \"index\": 0, \"delta\": {\"type\": \"text_delta\", \"text\": \"!\"}}\n",
        "\n",
        "event: content_block_stop\n",
        "data: {\"type\": \"content_block_stop\", \"index\": 0}\n",
        "\n",
        "event: message_delta\n",
        "data: {\"type\": \"message_delta\", \"delta\": {\"stop_reason\": \"end_turn\", \"stop_sequence\":null}, \"usage\": {\"output_tokens\": 15}}\n",
        "\n",
        "event: message_stop\n",
        "data: {\"type\": \"message_stop\"}\n",
        "\n",
        "event: ping\n",
        "data: {\"type\": \"ping\"}\n",
        "\n",
        "event: error\n",
        "data: {\"type\": \"error\", \"error\": {\"type\": \"overloaded_error\", \"message\": \"Overloaded\"}}\n",
    ]
    .concat();

    // split the stream into arbitrary chunks to simulate streaming
    let mut events = Vec::new();
    for chunk in sse_data.as_bytes().chunks(50) {
        events.append(&mut parser.process(chunk).unwrap());
    }
    events.push(parser.parse_remaining().unwrap());

    assert_eq!(events.len(), 9);

    let expected_types = [
        "message_start",
        "content_block_start",
        "content_block_delta",
        "content_block_delta",
        "content_block_stop",
        "message_delta",
        "message_stop",
        "ping",
        "error",
    ];
    for (ev, expected) in events.iter().zip(expected_types) {
        assert_eq!(ev.event_type.as_deref(), Some(expected));
    }

    let delta: serde_json::Value = serde_json::from_str(&events[2].data).unwrap();
    assert_eq!(delta["delta"]["text"].as_str(), Some("Hello"));
    let delta: serde_json::Value = serde_json::from_str(&events[3].data).unwrap();
    assert_eq!(delta["delta"]["text"].as_str(), Some("!"));
    let err: serde_json::Value = serde_json::from_str(&events[8].data).unwrap();
    assert_eq!(err["error"]["type"].as_str(), Some("overloaded_error"));
    assert_eq!(err["error"]["message"].as_str(), Some("Overloaded"));
}

#[test]
fn data_lines_join_with_newlines_and_crs_are_stripped() {
    let mut parser = Parser::new();
    let events = parser.process(b"data: one\r\ndata: two\n\n").unwrap();
    assert_eq!(events.len(), 1);
    assert!(events[0].event_type.is_none());
    assert_eq!(events[0].data, "one\ntwo");
}

#[test]
fn an_unexpected_line_fails_the_chunk() {
    let mut parser = Parser::new();
    assert!(parser.process(b"bogus line\n\n").is_err());
}
