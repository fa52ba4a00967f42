use world_weaver::game::protocol::TurnOutput;
use world_weaver::game::{Game, GameError, StartResultOrData, TurnInput, WorldDescription};
use world_weaver::llm::Role;

fn world() -> WorldDescription {
    WorldDescription {
        name: "Testland".into(),
        main_description: "A fantasy world with dragons".into(),
        pc_descriptions: vec![("Alice".to_string(), "A brave warrior".to_string())],
        init_action: "Look around".into(),
    }
}

fn output(i: usize) -> TurnOutput {
    TurnOutput {
        text: format!("Result of action {i}"),
        image_description: format!("scene {i}"),
        image_caption: format!("caption {i}"),
        secret_info: format!("Secret info {i}"),
        proposed_next_actions: vec![
            format!("Action A{i}"),
            format!("Action B{i}"),
            format!("Action C{i}"),
        ],
        input_tokens: 5,
        output_tokens: 10,
    }
}

#[test]
fn try_new_validates_the_character() {
    assert!(Game::try_new(world(), "Alice".into()).is_ok());
    let err = Game::try_new(world(), "Bob".into()).unwrap_err();
    assert_eq!(err, GameError::InvalidCharacterName);
}

#[test]
fn a_fresh_session_starts_with_the_initial_action() {
    let game = Game::try_new(world(), "Alice".into()).unwrap();
    assert!(game.is_empty());
    assert_eq!(game.current_turn(), 0);
    match game.start_or_get_last_output() {
        StartResultOrData::StartResult(TurnInput::PlayerAction(a)) => {
            assert_eq!(a, "Look around")
        }
        _ => panic!("expected the initial player action"),
    }
}

#[test]
fn summaries_follow_the_interval() {
    // after every commit, a summary is due exactly when the turns not yet
    // covered reach the interval of eight
    let mut game = Game::try_new(world(), "Alice".into()).unwrap();
    let mut summary_points = Vec::new();
    for i in 0..20usize {
        let due = game.update(
            TurnInput::PlayerAction(format!("Do action {i}")),
            output(i),
            vec![i],
            vec![format!("caption {i}")],
        );
        assert_eq!(game.current_turn(), i + 1);
        if due {
            game.apply_summary(format!("summary after turn {i}"));
            summary_points.push(i);
        }
    }
    // first summary once eight turns exist (after committing turn index 7),
    // then once eight more turns stand past the last covered turn
    assert_eq!(summary_points, vec![7, 14]);
    let data = game.get_data();
    assert_eq!(data.turn_data.len(), 20);
    assert_eq!(data.summaries.len(), 2);
    assert_eq!(data.summaries[0].bday, 7);
    assert_eq!(data.summaries[1].bday, 14);
    assert_eq!(data.turn_data[9].summary_before_input, Some(0));
    assert_eq!(data.turn_data[0].summary_before_input, None);
}

#[test]
fn requests_replay_the_recent_history() {
    let mut game = Game::try_new(world(), "Alice".into()).unwrap();
    for i in 0..10usize {
        game.update(
            TurnInput::PlayerAction(format!("Do action {i}")),
            output(i),
            vec![i],
            vec![format!("caption {i}")],
        );
    }
    let req = game
        .get_data()
        .construct_request(&TurnInput::GmInstruction("be kind".into()));
    assert_eq!(req.max_tokens, 3000);
    let system = req.system.as_deref().unwrap();
    assert!(system.starts_with("You are a Story-teller-game."));
    assert!(system.contains("Alice"));
    assert!(system.contains("A fantasy world with dragons"));
    // eight replayed turns as user/assistant pairs, then the new input
    assert_eq!(req.messages.len(), 17);
    for k in 0..8 {
        assert_eq!(req.messages[2 * k].role, Role::User);
        assert!(req.messages[2 * k].content.starts_with(&format!("turn {}", k + 2)));
        assert_eq!(req.messages[2 * k + 1].role, Role::Assistant);
        assert!(req.messages[2 * k + 1].content.contains(&format!("Result of action {}", k + 2)));
    }
    let last = req.messages.last().unwrap();
    assert_eq!(last.role, Role::User);
    assert!(last.content.contains("be kind"));
    assert!(last.content.contains("Secret info 9"));
}

#[test]
fn summary_requests_cover_the_uncovered_turns() {
    let mut game = Game::try_new(world(), "Alice".into()).unwrap();
    for i in 0..8usize {
        game.update(
            TurnInput::PlayerAction(format!("Do action {i}")),
            output(i),
            vec![i],
            vec![format!("caption {i}")],
        );
    }
    let req = game.mk_summary_request();
    // eight uncovered turns replayed, plus the closing instruction
    assert_eq!(req.messages.len(), 17);
    assert!(req.system.unwrap().contains("no prior summary"));
    game.apply_summary("all of it".into());
    let req = game.mk_summary_request();
    assert_eq!(req.messages.len(), 1);
    assert!(req.system.unwrap().contains("all of it"));
}

#[test]
fn rewinding_clips_turns_and_summaries() {
    let mut game = Game::try_new(world(), "Alice".into()).unwrap();
    for i in 0..10usize {
        let due = game.update(
            TurnInput::PlayerAction(format!("Do action {i}")),
            output(i),
            vec![i],
            vec![format!("caption {i}")],
        );
        if due {
            game.apply_summary(format!("summary after turn {i}"));
        }
    }
    assert_eq!(game.get_data().summaries.len(), 1);
    game.clip_after_turn(4);
    assert_eq!(game.get_data().turn_data.len(), 5);
    assert!(game.get_data().summaries.is_empty());
    assert!(game.get_data().is_well_formed());
    match game.start_or_get_last_output() {
        StartResultOrData::Data(t) => assert_eq!(t.output.text, "Result of action 4"),
        _ => panic!("expected the last committed turn"),
    }
}

#[test]
fn edits_overwrite_exactly_one_field_of_one_turn() {
    let mut game = Game::try_new(world(), "Alice".into()).unwrap();
    for i in 0..3usize {
        game.update(
            TurnInput::PlayerAction(format!("Do action {i}")),
            output(i),
            vec![i],
            vec![format!("caption {i}")],
        );
    }
    game.update_output(1, "rewritten".into());
    game.update_hidden_info(1, "new secret".into());
    let d = game.get_data();
    assert_eq!(d.turn_data[1].output.text, "rewritten");
    assert_eq!(d.turn_data[1].output.secret_info, "new secret");
    assert_eq!(d.turn_data[1].output.image_caption, "caption 1");
    assert_eq!(d.turn_data[0].output.text, "Result of action 0");
    assert_eq!(d.turn_data[2].output.text, "Result of action 2");
}

#[test]
fn write_to_user_msg_string_appends_the_sections() {
    let mut s = String::from("turn 3");
    TurnInput::Both {
        player_action: "open the door".into(),
        gm_instruction: "make it stormy".into(),
    }
    .write_to_user_msg_string(&mut s);
    assert_eq!(
        s,
        "turn 3\n# player action\nopen the door\n# gm command\nmake it stormy"
    );
}
