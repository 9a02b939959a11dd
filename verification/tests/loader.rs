use better_image_view::frame::DecodedFrame;
use better_image_view::loader::{Loader, LoaderAction, LoaderCommand, LoaderEvent, LoaderInput};
use better_image_view::path::ImagePath;

fn path(name: &str) -> ImagePath {
    ImagePath::new(name.as_bytes().to_vec())
}

fn frame(name: &str) -> DecodedFrame {
    DecodedFrame {
        path: path(name),
        width: 1,
        height: 1,
        stride: 4,
        pixels: vec![0; 4],
        source_width: 1,
        source_height: 1,
        source_dpi: None,
        file_type: "TEST".to_string(),
        metadata: String::new(),
    }
}

fn batch(generation: u64, names: &[&str]) -> LoaderInput {
    LoaderInput::Received(LoaderCommand::Batch {
        generation,
        paths: names.iter().map(|name| path(name)).collect(),
    })
}

fn decodes(action: Option<LoaderAction>, name: &str) {
    match action {
        Some(LoaderAction::Decode(asked)) => assert_eq!(asked.bytes, name.as_bytes().to_vec()),
        other => panic!("unexpected {other:?}"),
    }
}

#[test]
fn batch_is_decoded_in_order() {
    let mut loader = Loader::new();
    assert!(matches!(loader.step(batch(5, &["a", "b"])), Some(LoaderAction::Poll)));
    assert!(matches!(loader.step(LoaderInput::Nothing), Some(LoaderAction::Poll)));
    decodes(loader.step(LoaderInput::Nothing), "a");
    match loader.step(LoaderInput::Decoded(frame("a"))) {
        Some(LoaderAction::Send(LoaderEvent::Loaded { generation, frame })) => {
            assert_eq!(generation, 5);
            assert!(frame.path.same(&path("a")));
        }
        other => panic!("unexpected {other:?}"),
    }
    assert!(matches!(loader.step(LoaderInput::Sent(true)), Some(LoaderAction::Poll)));
    decodes(loader.step(LoaderInput::Nothing), "b");
    match loader.step(LoaderInput::Undecodable("broken".to_string())) {
        Some(LoaderAction::Send(LoaderEvent::Failed { generation, path: failed, message })) => {
            assert_eq!(generation, 5);
            assert!(failed.same(&path("b")));
            assert_eq!(message, "broken");
        }
        other => panic!("unexpected {other:?}"),
    }
    // A failure that nobody hears is no reason to stop.
    assert!(matches!(loader.step(LoaderInput::Sent(false)), Some(LoaderAction::Receive)));
    assert!(matches!(loader.step(LoaderInput::Nothing), Some(LoaderAction::Finish)));
}

#[test]
fn newest_waiting_batch_is_started() {
    let mut loader = Loader::new();
    loader.step(batch(1, &["a"]));
    loader.step(batch(2, &["b", "c"]));
    loader.step(batch(3, &["d"]));
    loader.step(LoaderInput::Nothing);
    decodes(loader.step(LoaderInput::Nothing), "d");
}

#[test]
fn newer_batch_interrupts_an_older_one() {
    let mut loader = Loader::new();
    loader.step(batch(1, &["a", "b", "c"]));
    loader.step(LoaderInput::Nothing);
    decodes(loader.step(LoaderInput::Nothing), "a");
    loader.step(LoaderInput::Decoded(frame("a")));
    loader.step(LoaderInput::Sent(true));
    assert!(matches!(loader.step(batch(2, &["x"])), Some(LoaderAction::Poll)));
    assert!(matches!(loader.step(LoaderInput::Nothing), Some(LoaderAction::Poll)));
    decodes(loader.step(LoaderInput::Nothing), "x");
}

#[test]
fn stop_ends_the_loader_everywhere() {
    let stop = || LoaderInput::Received(LoaderCommand::Stop);
    let mut loader = Loader::new();
    assert!(matches!(loader.step(stop()), Some(LoaderAction::Finish)));
    let mut loader = Loader::new();
    loader.step(batch(1, &["a"]));
    assert!(matches!(loader.step(stop()), Some(LoaderAction::Finish)));
    let mut loader = Loader::new();
    loader.step(batch(1, &["a"]));
    loader.step(LoaderInput::Nothing);
    assert!(matches!(loader.step(stop()), Some(LoaderAction::Finish)));
    assert!(loader.step(batch(2, &["b"])).is_none());
}

#[test]
fn loader_ends_when_nobody_listens() {
    let mut loader = Loader::new();
    loader.step(batch(1, &["a", "b"]));
    loader.step(LoaderInput::Nothing);
    loader.step(LoaderInput::Nothing);
    loader.step(LoaderInput::Decoded(frame("a")));
    assert!(matches!(loader.step(LoaderInput::Sent(false)), Some(LoaderAction::Finish)));
}

#[test]
fn empty_batch_is_done_at_once() {
    let mut loader = Loader::new();
    loader.step(batch(1, &[]));
    assert!(matches!(loader.step(LoaderInput::Nothing), Some(LoaderAction::Receive)));
}

#[test]
fn unexpected_inputs_change_nothing() {
    let mut loader = Loader::new();
    assert!(loader.step(LoaderInput::Sent(true)).is_none());
    assert!(loader.step(LoaderInput::Decoded(frame("a"))).is_none());
    loader.step(batch(1, &["a"]));
    assert!(loader.step(LoaderInput::Undecodable(String::new())).is_none());
    loader.step(LoaderInput::Nothing);
    decodes(loader.step(LoaderInput::Nothing), "a");
    assert!(loader.step(LoaderInput::Nothing).is_none());
}

/// Runs a loader whose commands all wait from the start.
fn run(commands: Vec<LoaderCommand>) -> Vec<(u64, String, bool)> {
    let mut queue = commands.into_iter();
    let mut told = Vec::new();
    let mut loader = Loader::new();
    let mut action = LoaderAction::Receive;
    loop {
        let input = match action {
            LoaderAction::Receive | LoaderAction::Poll => match queue.next() {
                Some(command) => LoaderInput::Received(command),
                None => LoaderInput::Nothing,
            },
            LoaderAction::Decode(path) => {
                let name = path.to_text().unwrap();
                if name.starts_with("bad") {
                    LoaderInput::Undecodable(name)
                } else {
                    LoaderInput::Decoded(frame(&name))
                }
            }
            LoaderAction::Send(LoaderEvent::Loaded { generation, frame }) => {
                told.push((generation, frame.path.to_text().unwrap(), true));
                LoaderInput::Sent(true)
            }
            LoaderAction::Send(LoaderEvent::Failed { generation, path, message }) => {
                assert_eq!(path.to_text().unwrap(), message);
                told.push((generation, message, false));
                LoaderInput::Sent(true)
            }
            LoaderAction::Finish => return told,
        };
        action = loader.step(input).unwrap();
    }
}

#[test]
fn last_waiting_batch_is_told() {
    let command = |generation: u64, names: &[&str]| LoaderCommand::Batch {
        generation,
        paths: names.iter().map(|name| path(name)).collect(),
    };
    assert!(run(vec![]).is_empty());
    assert!(run(vec![LoaderCommand::Stop]).is_empty());
    assert!(run(vec![command(1, &["a"]), LoaderCommand::Stop]).is_empty());
    assert!(run(vec![command(1, &["a"]), LoaderCommand::Stop, command(2, &["b"])]).is_empty());
    assert!(run(vec![command(1, &["a"]), command(2, &[])]).is_empty());
    assert_eq!(
        run(vec![command(1, &["x", "y"]), command(2, &["a", "bad1", "b"])]),
        vec![
            (2, "a".to_string(), true),
            (2, "bad1".to_string(), false),
            (2, "b".to_string(), true),
        ]
    );
}
