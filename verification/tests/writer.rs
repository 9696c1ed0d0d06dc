use flate2::read::GzDecoder;
use flate2::write::GzEncoder;
use flate2::Compression;
use logy::models::{LogError, Outcome, Plan, SinkAction, WrappedFileWriter};
use std::io::{Read, Write};

/// Destinations held in memory, on which the actions of a sink are carried
/// out as their descriptions say.
struct Store {
    files: Vec<(String, Vec<String>)>,
    open: Option<String>,
}

impl Store {
    fn new() -> Store {
        Store { files: Vec::new(), open: None }
    }

    fn position(&self, name: &str) -> Option<usize> {
        self.files.iter().position(|(n, _)| n == name)
    }

    fn get(&self, name: &str) -> Option<Vec<String>> {
        self.position(name).map(|i| self.files[i].1.clone())
    }

    fn names(&self) -> Vec<String> {
        self.files.iter().map(|(n, _)| n.clone()).collect()
    }

    fn apply(&mut self, action: &SinkAction) {
        match action {
            SinkAction::Open { name, append, .. } => {
                match self.position(name) {
                    Some(i) => {
                        if !*append {
                            self.files[i].1.clear();
                        }
                    }
                    None => self.files.push((name.clone(), Vec::new())),
                }
                self.open = Some(name.clone());
            }
            SinkAction::Close { name, unwritten } => {
                if let Some(i) = self.position(name) {
                    if self.files[i].1.is_empty() || *unwritten {
                        self.files.remove(i);
                    }
                }
            }
            SinkAction::Write { text } => {
                let open = self.open.clone().expect("a destination is open");
                let i = self.position(&open).expect("the open destination exists");
                self.files[i].1.push(text.clone());
            }
            SinkAction::Flush => {}
        }
    }

    fn run(&mut self, actions: &[SinkAction]) {
        for action in actions {
            self.apply(action);
        }
    }
}

fn write_all(pattern: &str, level: u32, writes: &[(i64, &str)]) -> Outcome {
    let mut plan = Plan::open(pattern, level);
    for (hour, text) in writes {
        plan.write(*hour, text);
    }
    plan.flush();
    plan.finish()
}

fn texts(lines: &[&str]) -> Vec<String> {
    lines.iter().map(|t| t.to_string()).collect()
}

#[test]
fn a_new_sink_opens_the_destination_of_bucket_zero() {
    let sink = WrappedFileWriter::new("output.%Y%m%d-%H.log", 0).unwrap();
    assert_eq!(
        sink.opening(),
        SinkAction::Open { name: "output.19700101-00.log".to_string(), append: false, level: 0 }
    );
}

#[test]
fn a_compressed_sink_adds_the_suffix_and_caps_the_level() {
    let sink = WrappedFileWriter::new("output.%Y%m%d-%H.log", 6).unwrap();
    assert_eq!(
        sink.opening(),
        SinkAction::Open { name: "output.19700101-00.log.gz".to_string(), append: false, level: 6 }
    );
    let capped = WrappedFileWriter::new("output.%Y%m%d-%H.log", 20).unwrap();
    assert_eq!(
        capped.opening(),
        SinkAction::Open { name: "output.19700101-00.log.gz".to_string(), append: false, level: 9 }
    );
    let nine = WrappedFileWriter::new("plain.log", 9).unwrap();
    assert_eq!(
        nine.opening(),
        SinkAction::Open { name: "plain.log.gz".to_string(), append: true, level: 9 }
    );
}

#[test]
fn a_sink_with_a_plain_name_appends() {
    let sink = WrappedFileWriter::new("traced.output.log", 0).unwrap();
    assert_eq!(
        sink.opening(),
        SinkAction::Open { name: "traced.output.log".to_string(), append: true, level: 0 }
    );
}

#[test]
fn a_sink_refuses_a_name_it_cannot_render() {
    match WrappedFileWriter::new("output.%Q.log", 0) {
        Err(e) => assert_eq!(e, LogError::InvalidFileName),
        Ok(_) => panic!("the name pattern cannot be rendered"),
    }
}

#[test]
fn write_to_the_open_bucket_only_writes() {
    let mut sink = WrappedFileWriter::new("output.%Y%m%d-%H.log", 0).unwrap();
    assert_eq!(
        sink.write(0, "first").unwrap(),
        vec![SinkAction::Write { text: "first".to_string() }]
    );
    assert_eq!(
        sink.write(0, "second").unwrap(),
        vec![SinkAction::Write { text: "second".to_string() }]
    );
}

#[test]
fn write_to_another_bucket_rotates_first() {
    let mut sink = WrappedFileWriter::new("output.%Y%m%d-%H.log", 0).unwrap();
    sink.write(0, "first").unwrap();
    assert_eq!(
        sink.write(1, "second").unwrap(),
        vec![
            SinkAction::Close { name: "output.19700101-00.log".to_string(), unwritten: false },
            SinkAction::Open {
                name: "output.19700101-01.log".to_string(),
                append: false,
                level: 0
            },
            SinkAction::Write { text: "second".to_string() },
        ]
    );
    assert_eq!(
        sink.opening(),
        SinkAction::Open { name: "output.19700101-01.log".to_string(), append: false, level: 0 }
    );
}

#[test]
fn a_compressed_destination_that_was_never_written_is_marked_unwritten() {
    let mut sink = WrappedFileWriter::new("output.%Y%m%d-%H.log", 9).unwrap();
    assert_eq!(
        sink.write(453_524, "first").unwrap(),
        vec![
            SinkAction::Close { name: "output.19700101-00.log.gz".to_string(), unwritten: true },
            SinkAction::Open {
                name: "output.20210926-20.log.gz".to_string(),
                append: false,
                level: 9
            },
            SinkAction::Write { text: "first".to_string() },
        ]
    );
    assert_eq!(
        sink.write(453_525, "second").unwrap(),
        vec![
            SinkAction::Close { name: "output.20210926-20.log.gz".to_string(), unwritten: false },
            SinkAction::Open {
                name: "output.20210926-21.log.gz".to_string(),
                append: false,
                level: 9
            },
            SinkAction::Write { text: "second".to_string() },
        ]
    );
}

#[test]
fn a_write_without_a_name_fails_and_leaves_the_sink_as_it_was() {
    let mut sink = WrappedFileWriter::new("output.%Y%m%d-%H.log", 0).unwrap();
    sink.write(1, "first").unwrap();
    match sink.write(i64::MAX, "lost") {
        Err(e) => assert_eq!(e, LogError::InvalidFileName),
        Ok(_) => panic!("the bucket has no name"),
    }
    assert_eq!(
        sink.opening(),
        SinkAction::Open { name: "output.19700101-01.log".to_string(), append: false, level: 0 }
    );
    assert_eq!(
        sink.write(1, "second").unwrap(),
        vec![SinkAction::Write { text: "second".to_string() }]
    );
}

#[test]
fn flush_asks_for_a_flush_and_changes_nothing() {
    let mut sink = WrappedFileWriter::new("output.%Y%m%d-%H.log", 0).unwrap();
    sink.write(2, "first").unwrap();
    assert_eq!(sink.flush(), SinkAction::Flush);
    assert_eq!(sink.flush(), SinkAction::Flush);
    assert_eq!(
        sink.write(2, "second").unwrap(),
        vec![SinkAction::Write { text: "second".to_string() }]
    );
}

#[test]
fn each_bucket_gets_a_destination_with_its_records_in_order() {
    let outcome = write_all(
        "out.%Y%m%d-%H.log",
        0,
        &[(0, "a"), (0, "b"), (1, "c"), (1, "d"), (2, "e")],
    );
    assert_eq!(outcome.failure, None);
    let mut store = Store::new();
    store.run(&outcome.actions);
    assert_eq!(
        store.names(),
        texts(&["out.19700101-00.log", "out.19700101-01.log", "out.19700101-02.log"])
    );
    assert_eq!(store.get("out.19700101-00.log"), Some(texts(&["a", "b"])));
    assert_eq!(store.get("out.19700101-01.log"), Some(texts(&["c", "d"])));
    assert_eq!(store.get("out.19700101-02.log"), Some(texts(&["e"])));
}

#[test]
fn a_bucket_without_a_write_leaves_no_destination() {
    for level in [0, 9] {
        let outcome = write_all("out.%Y%m%d-%H.log", level, &[(5, "a"), (5, "b"), (7, "c")]);
        assert_eq!(outcome.failure, None);
        let mut store = Store::new();
        store.run(&outcome.actions);
        let suffix = if level > 0 { ".gz" } else { "" };
        assert_eq!(
            store.names(),
            vec![
                format!("out.19700101-05.log{}", suffix),
                format!("out.19700101-07.log{}", suffix)
            ]
        );
        assert_eq!(store.get(&format!("out.19700101-00.log{}", suffix)), None);
        assert_eq!(store.get(&format!("out.19700101-06.log{}", suffix)), None);
    }
}

#[test]
fn a_sink_that_is_never_written_leaves_its_first_destination() {
    let outcome = write_all("out.%Y%m%d-%H.log", 0, &[]);
    assert_eq!(
        outcome.actions,
        vec![
            SinkAction::Open { name: "out.19700101-00.log".to_string(), append: false, level: 0 },
            SinkAction::Flush,
        ]
    );
    let mut store = Store::new();
    store.run(&outcome.actions);
    assert_eq!(store.get("out.19700101-00.log"), Some(vec![]));
}

#[test]
fn a_plain_name_gathers_every_bucket_and_keeps_what_was_there() {
    let mut store = Store::new();
    store.files.push(("traced.output.log".to_string(), texts(&["earlier"])));
    let first = write_all("traced.output.log", 0, &[(0, "a"), (3, "b"), (1, "c")]);
    assert_eq!(first.failure, None);
    assert_eq!(
        first.actions,
        vec![
            SinkAction::Open { name: "traced.output.log".to_string(), append: true, level: 0 },
            SinkAction::Write { text: "a".to_string() },
            SinkAction::Write { text: "b".to_string() },
            SinkAction::Write { text: "c".to_string() },
            SinkAction::Flush,
        ]
    );
    store.run(&first.actions);
    let second = write_all("traced.output.log", 0, &[(9, "d")]);
    store.run(&second.actions);
    assert_eq!(store.names(), texts(&["traced.output.log"]));
    assert_eq!(store.get("traced.output.log"), Some(texts(&["earlier", "a", "b", "c", "d"])));
}

#[test]
fn a_bucket_that_is_opened_again_starts_empty() {
    let outcome = write_all("out.%H.log", 0, &[(0, "a"), (1, "b"), (24, "c")]);
    let mut store = Store::new();
    store.run(&outcome.actions);
    assert_eq!(store.get("out.00.log"), Some(texts(&["c"])));
    assert_eq!(store.get("out.01.log"), Some(texts(&["b"])));
}

#[test]
fn compressed_output_unpacks_to_the_plain_output() {
    let writes = [(0, "first record"), (0, "second\n  with a second line"), (1, "third")];
    let plain = write_all("out.%Y%m%d-%H.log", 0, &writes);
    let packed = write_all("out.%Y%m%d-%H.log", 9, &writes);
    let mut plain_store = Store::new();
    plain_store.run(&plain.actions);
    let mut packed_store = Store::new();
    packed_store.run(&packed.actions);
    let level = match &packed.actions[0] {
        SinkAction::Open { level, .. } => *level,
        other => panic!("the plan begins with {:?}", other),
    };
    assert_eq!(level, 9);
    assert_eq!(plain_store.files.len(), 2);
    for (name, lines) in plain_store.files.iter() {
        let mut content = String::new();
        for line in lines {
            content.push_str(line);
            content.push('\n');
        }
        let packed_lines = packed_store.get(&format!("{}.gz", name)).unwrap();
        let mut encoder = GzEncoder::new(Vec::new(), Compression::new(level));
        for line in packed_lines.iter() {
            encoder.write_all(line.as_bytes()).unwrap();
            encoder.write_all(b"\n").unwrap();
        }
        let bytes = encoder.finish().unwrap();
        assert_ne!(bytes, content.as_bytes());
        let mut unpacked = String::new();
        GzDecoder::new(&bytes[..]).read_to_string(&mut unpacked).unwrap();
        assert_eq!(unpacked, content);
    }
}

#[test]
fn a_plan_stops_at_the_first_failure_and_keeps_what_came_before() {
    let mut plan = Plan::open("out.%Y%m%d-%H.log", 0);
    plan.write(0, "a");
    plan.write(i64::MAX, "b");
    plan.write(0, "c");
    plan.flush();
    assert_eq!(plan.failure(), Some(LogError::InvalidFileName));
    let outcome = plan.finish();
    assert_eq!(outcome.failure, Some(LogError::InvalidFileName));
    assert_eq!(
        outcome.actions,
        vec![
            SinkAction::Open { name: "out.19700101-00.log".to_string(), append: false, level: 0 },
            SinkAction::Write { text: "a".to_string() },
        ]
    );
}

#[test]
fn a_plan_that_cannot_open_asks_for_nothing() {
    let mut plan = Plan::open("out.%Q.log", 0);
    plan.write(0, "a");
    plan.flush();
    let outcome = plan.finish();
    assert_eq!(outcome.failure, Some(LogError::InvalidFileName));
    assert_eq!(outcome.actions, vec![]);
}

#[test]
fn a_plan_keeps_the_first_failure() {
    let mut plan = Plan::open("out.log", 0);
    plan.fail(LogError::InvalidTimestamp);
    plan.fail(LogError::InvalidPattern);
    assert_eq!(plan.failure(), Some(LogError::InvalidTimestamp));
}

#[test]
fn taking_the_actions_empties_the_plan_and_keeps_the_sink() {
    let mut plan = Plan::open("out.%Y%m%d-%H.log", 0);
    plan.write(0, "a");
    assert_eq!(
        plan.take_actions(),
        vec![
            SinkAction::Open { name: "out.19700101-00.log".to_string(), append: false, level: 0 },
            SinkAction::Write { text: "a".to_string() },
        ]
    );
    assert_eq!(plan.take_actions(), vec![]);
    plan.write(1, "b");
    assert_eq!(
        plan.take_actions(),
        vec![
            SinkAction::Close { name: "out.19700101-00.log".to_string(), unwritten: false },
            SinkAction::Open { name: "out.19700101-01.log".to_string(), append: false, level: 0 },
            SinkAction::Write { text: "b".to_string() },
        ]
    );
}

#[test]
fn outcomes_follow_one_another_until_a_failure() {
    let mut all = Outcome::new();
    assert_eq!(all.actions, vec![]);
    assert_eq!(all.failure, None);
    all.extend(write_all("a.log", 0, &[(0, "x")]));
    all.extend(Outcome::failed(LogError::InvalidTimestamp));
    all.extend(write_all("b.log", 0, &[(0, "y")]));
    assert_eq!(all.failure, Some(LogError::InvalidTimestamp));
    assert_eq!(
        all.actions,
        vec![
            SinkAction::Open { name: "a.log".to_string(), append: true, level: 0 },
            SinkAction::Write { text: "x".to_string() },
            SinkAction::Flush,
        ]
    );
}

#[test]
fn every_error_has_a_message() {
    let errors = [
        LogError::InvalidPattern,
        LogError::InvalidTimestamp,
        LogError::InvalidFileName,
        LogError::InvalidDuration,
    ];
    for (i, a) in errors.iter().enumerate() {
        assert!(!a.message().is_empty());
        for b in errors.iter().skip(i + 1) {
            assert_ne!(a.message(), b.message());
        }
    }
    assert_eq!(LogError::InvalidPattern.message(), "the pattern is not a valid regular expression");
}

#[test]
fn write_to_rotates_to_the_name_it_is_given() {
    let mut sink = WrappedFileWriter::new("out.%Y%m%d-%H.log", 4).unwrap();
    assert_eq!(
        sink.write_to("out.19700101-00.log.gz".to_string(), "a"),
        vec![SinkAction::Write { text: "a".to_string() }]
    );
    assert_eq!(
        sink.write_to("elsewhere.log".to_string(), "b"),
        vec![
            SinkAction::Close { name: "out.19700101-00.log.gz".to_string(), unwritten: false },
            SinkAction::Open { name: "elsewhere.log".to_string(), append: false, level: 4 },
            SinkAction::Write { text: "b".to_string() },
        ]
    );
    assert_eq!(
        sink.write_to("out.%Y%m%d-%H.log.gz".to_string(), "c"),
        vec![
            SinkAction::Close { name: "elsewhere.log".to_string(), unwritten: false },
            SinkAction::Open { name: "out.%Y%m%d-%H.log.gz".to_string(), append: true, level: 4 },
            SinkAction::Write { text: "c".to_string() },
        ]
    );
    let mut fresh = WrappedFileWriter::new("out.%Y%m%d-%H.log", 4).unwrap();
    assert_eq!(
        fresh.write_to("other.gz".to_string(), "a"),
        vec![
            SinkAction::Close { name: "out.19700101-00.log.gz".to_string(), unwritten: true },
            SinkAction::Open { name: "other.gz".to_string(), append: false, level: 4 },
            SinkAction::Write { text: "a".to_string() },
        ]
    );
}
