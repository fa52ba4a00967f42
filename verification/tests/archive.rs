use serde_json::Value;
use world_weaver::save_archive::{ArchiveError, SaveArchive};

fn sample_game_data(turns: usize) -> Value {
    let mut pc_descriptions = serde_json::Map::new();
    pc_descriptions.insert("Alice".to_string(), Value::from("A brave warrior"));

    let mut world = serde_json::Map::new();
    world.insert("main_description".to_string(), Value::from("A fantasy world with dragons"));
    world.insert("pc_descriptions".to_string(), Value::Object(pc_descriptions));
    world.insert("init_action".to_string(), Value::from("Look around"));

    let mut summaries = Vec::new();
    for i in 0..(turns / 8) {
        let mut s = serde_json::Map::new();
        s.insert("content".to_string(), Value::from(format!("Summary at turn {}", i * 10)));
        s.insert("bday".to_string(), Value::from(i * 10));
        summaries.push(Value::Object(s));
    }

    let mut turn_data = Vec::new();
    for i in 0..turns {
        let mut output = serde_json::Map::new();
        output.insert("text".to_string(), Value::from(format!("Result of action {i}")));
        output.insert("secret_info".to_string(), Value::from(format!("Secret info {i}")));
        output.insert(
            "proposed_next_actions".to_string(),
            Value::Array(vec![
                Value::from(format!("Action A{i}")),
                Value::from(format!("Action B{i}")),
                Value::from(format!("Action C{i}")),
            ]),
        );
        output.insert("input_tokens".to_string(), Value::from(5));
        output.insert("output_tokens".to_string(), Value::from(10));
        let mut td = serde_json::Map::new();
        td.insert("summary_before_input".to_string(), if i == 0 {
            Value::Null
        } else {
            Value::from(i - 1)
        });
        td.insert("input".to_string(), Value::from(format!("Do action {i}")));
        td.insert("output".to_string(), Value::Object(output));
        turn_data.push(Value::Object(td));
    }

    let mut data = serde_json::Map::new();
    data.insert("world_description".to_string(), Value::Object(world));
    data.insert("pc".to_string(), Value::from("Alice"));
    data.insert("summaries".to_string(), Value::Array(summaries));
    data.insert("turn_data".to_string(), Value::Array(turn_data));
    Value::Object(data)
}

#[test]
fn create_and_write_game_data() {
    let mut archive = SaveArchive::create();

    let game_data = sample_game_data(15);
    archive.write_game_data(&serde_json::to_vec(&game_data).unwrap()).unwrap();

    let read_back = archive.read_game_data().unwrap();
    let read_data: Value = serde_json::from_slice(&read_back).unwrap();
    assert_eq!(read_data["pc"].as_str(), Some("Alice"));
    assert_eq!(read_data["turn_data"].as_array().unwrap().len(), 15);
    assert_eq!(read_data["summaries"].as_array().unwrap().len(), 1);
}

#[test]
fn append_and_read_image() {
    let mut archive = SaveArchive::create();

    let img1 = vec![0u8, 1, 2, 3, 4, 5];
    let img2 = vec![10u8, 11, 12];

    assert_eq!(archive.append_image(&img1).unwrap(), 0);
    assert_eq!(archive.append_image(&img2).unwrap(), 1);

    let read1 = archive.read_image(0).unwrap();
    let read2 = archive.read_image(1).unwrap();

    assert_eq!(img1, read1);
    assert_eq!(img2, read2);
}

#[test]
fn reopen_archive() {
    let mut archive = SaveArchive::create();
    let game_data = sample_game_data(5);
    archive.write_game_data(&serde_json::to_vec(&game_data).unwrap()).unwrap();
    let file = archive.into_bytes();

    let mut archive = SaveArchive::open(file).unwrap();
    let read_data: Value = serde_json::from_slice(&archive.read_game_data().unwrap()).unwrap();
    assert_eq!(read_data["turn_data"].as_array().unwrap().len(), 5);
    assert_eq!(read_data["pc"].as_str(), Some("Alice"));

    let img = vec![42u8, 43, 44];
    archive.append_image(&img).unwrap();
    let file = archive.into_bytes();

    let archive = SaveArchive::open(file).unwrap();
    let img = archive.read_image(0).unwrap();
    assert_eq!(img, vec![42u8, 43, 44]);
}

#[test]
fn image_not_found() {
    let archive = SaveArchive::create();
    let err = archive.read_image(999).unwrap_err();
    assert_eq!(err, ArchiveError::ImageNotFound);
}

#[test]
fn images_survive_appends_across_reopens() {
    // every stored image reads back as exactly the bytes handed to its call
    let blobs: Vec<Vec<u8>> = (0u8..6).map(|k| vec![k; (k as usize) * 7 + 1]).collect();
    let mut archive = SaveArchive::create();
    for (k, b) in blobs.iter().take(3).enumerate() {
        assert_eq!(archive.append_image(b).unwrap(), k);
    }
    let mut archive = SaveArchive::open(archive.into_bytes()).unwrap();
    for (k, b) in blobs.iter().skip(3).enumerate() {
        assert_eq!(archive.append_image(b).unwrap(), k + 3);
    }
    let archive = SaveArchive::open(archive.into_bytes()).unwrap();
    for (k, b) in blobs.iter().enumerate() {
        assert_eq!(&archive.read_image(k).unwrap(), b);
    }
}

#[test]
fn game_data_survives_rewrites_and_reopens() {
    let mut archive = SaveArchive::create();
    assert_eq!(archive.read_game_data().unwrap_err(), ArchiveError::NoGameData);
    archive.write_game_data(b"first version").unwrap();
    archive.append_image(&[9, 9, 9]).unwrap();
    archive.write_game_data(b"second, longer version").unwrap();
    let archive = SaveArchive::open(archive.into_bytes()).unwrap();
    assert_eq!(archive.read_game_data().unwrap(), b"second, longer version");
    assert_eq!(archive.read_image(0).unwrap(), vec![9, 9, 9]);
}

#[test]
fn open_rejects_a_wrong_magic() {
    let mut bytes = vec![0u8; 200];
    for (k, b) in b"XOWEAVER".iter().enumerate() {
        bytes[k] = *b;
    }
    assert_eq!(SaveArchive::open(bytes).unwrap_err(), ArchiveError::InvalidMagic);
}
