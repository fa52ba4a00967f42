use world_weaver::game::stream_finder::{MatchResult, StreamFinder};

#[test]
fn test_stop_token_detection() {
    let mut matcher = StreamFinder::new("User:");
    assert_eq!(
        matcher.process("A User is an idiot"),
        MatchResult::CheckedOutput("A User is an idiot".into()),
    );
    assert_eq!(matcher.process("A User"), MatchResult::CheckedOutput("A ".into()));
    assert_eq!(matcher.process(" is"), MatchResult::CheckedOutput("User is".into()));

    assert_eq!(
        matcher.process("A User: is an"),
        MatchResult::StopTokenMatched {
            pre_token_text: "A ".into(),
            post_token_text: " is an".into()
        },
    );

    assert_eq!(
        matcher.process("User:"),
        MatchResult::StopTokenMatched {
            pre_token_text: "".into(),
            post_token_text: "".into()
        },
    );

    assert_eq!(
        matcher.process("UsUser:"),
        MatchResult::StopTokenMatched {
            pre_token_text: "Us".into(),
            post_token_text: "".into(),
        },
    );
}

#[test]
fn blocked_while_ambiguous() {
    let mut matcher = StreamFinder::new("<<<EOO>>>");
    assert_eq!(matcher.process("<<<"), MatchResult::Blocked);
    assert_eq!(matcher.process("EOO"), MatchResult::Blocked);
    assert_eq!(
        matcher.process(">>> tail"),
        MatchResult::StopTokenMatched {
            pre_token_text: "".into(),
            post_token_text: " tail".into(),
        },
    );
}

#[test]
fn single_occurrence_reassembles() {
    // any chunking of a stream with one occurrence of the token yields the
    // prefix as checked output plus the final pre-token text, and the
    // suffix as post-token text
    let chunks = ["stories a", "re told<", "<<EN", "D>>>after", "math"];
    let mut matcher = StreamFinder::new("<<<END>>>");
    let mut emitted = String::new();
    let mut found = None;
    for c in chunks {
        match matcher.process(c) {
            MatchResult::Blocked => {}
            MatchResult::CheckedOutput(o) => emitted.push_str(&o),
            MatchResult::StopTokenMatched { pre_token_text, post_token_text } => {
                emitted.push_str(&pre_token_text);
                found = Some(post_token_text);
                break;
            }
        }
    }
    assert_eq!(emitted, "stories are told");
    assert_eq!(found.as_deref(), Some("after"));
    // the scanner is reset and keeps working
    assert_eq!(matcher.process("math"), MatchResult::CheckedOutput("math".into()));
}
