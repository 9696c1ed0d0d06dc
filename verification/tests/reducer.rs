use logy::models::{Log, LogError, LogLine, Plan, SinkAction, WrappedFileReader};
use logy::pattern::Pattern;
use logy::reducer::{
    merge_records, read_sources, reduce_logs, write_log, write_log_at, LogSource, MergeEngine,
    MergeStep, Reduction,
};

const PREFIX: &str = r#"^(\d{4}-\d{2}-\d{2} \d{2}:\d{2}:\d{2}.\d{3})"#;
const TIME_FORMAT: &str = "%Y-%m-%d %H:%M:%S%.3f";

fn source(name: &str, lines: &[&str]) -> LogSource {
    LogSource { name: name.to_string(), lines: lines.iter().map(|l| l.to_string()).collect() }
}

fn values(merged: &[LogLine]) -> Vec<String> {
    merged.iter().map(|l| l.value()).collect()
}

fn writes(actions: &[SinkAction]) -> Vec<String> {
    let mut out = Vec::new();
    for action in actions {
        if let SinkAction::Write { text } = action {
            out.push(text.clone());
        }
    }
    out
}

#[test]
fn a_log_line_keeps_its_source_and_its_text() {
    let line = LogLine::new("app.log", "2021-09-26 20:00:00.001 started");
    assert_eq!(line.filename(), "app.log");
    assert_eq!(line.value(), "2021-09-26 20:00:00.001 started");
    assert_eq!(line.source(), "app.log");
    assert_eq!(line.text(), "2021-09-26 20:00:00.001 started");
}

fn need(step: MergeStep) -> usize {
    match step {
        MergeStep::Need(slot) => slot,
        other => panic!("the merge should ask for a record, and does {:?}", other),
    }
}

fn send(step: MergeStep) -> (usize, String, String) {
    match step {
        MergeStep::Send(slot, line) => (slot, line.filename(), line.value()),
        other => panic!("the merge should send a record out, and does {:?}", other),
    }
}

#[test]
fn the_engine_asks_for_every_source_and_then_sends_the_least_record() {
    let mut engine = MergeEngine::new(3);
    assert_eq!(engine.slots(), 3);
    assert_eq!(need(engine.step()), 0);
    // the step changes nothing until it is answered
    assert_eq!(need(engine.step()), 0);
    assert!(engine.supply(0, Some(LogLine::new("a", "10:02 x"))));
    assert_eq!(need(engine.step()), 1);
    assert!(engine.supply(1, Some(LogLine::new("b", "10:01 y"))));
    assert_eq!(need(engine.step()), 2);
    assert!(engine.supply(2, Some(LogLine::new("c", "10:03 z"))));
    assert_eq!(send(engine.step()), (1, "b".to_string(), "10:01 y".to_string()));
    // the slot of the record sent out waits for the next one
    assert_eq!(need(engine.step()), 1);
    assert!(engine.supply(1, Some(LogLine::new("b", "10:04 w"))));
    assert_eq!(send(engine.step()), (0, "a".to_string(), "10:02 x".to_string()));
    assert_eq!(need(engine.step()), 0);
    assert!(engine.supply(0, None));
    assert_eq!(send(engine.step()), (2, "c".to_string(), "10:03 z".to_string()));
    assert!(engine.supply(2, None));
    assert_eq!(send(engine.step()), (1, "b".to_string(), "10:04 w".to_string()));
    assert_eq!(need(engine.step()), 1);
    assert!(engine.supply(1, None));
    assert!(matches!(engine.step(), MergeStep::Done));
    assert!(matches!(engine.step(), MergeStep::Done));
}

#[test]
fn the_engine_takes_a_record_only_for_a_slot_that_waits() {
    let mut engine = MergeEngine::new(1);
    assert!(!engine.supply(1, Some(LogLine::new("b", "10:01 y"))));
    assert!(engine.supply(0, Some(LogLine::new("a", "10:02 x"))));
    // the slot holds a record now
    assert!(!engine.supply(0, Some(LogLine::new("a", "10:00 w"))));
    assert!(!engine.supply(0, None));
    assert_eq!(send(engine.step()), (0, "a".to_string(), "10:02 x".to_string()));
    assert!(engine.supply(0, None));
    // the source has ended
    assert!(!engine.supply(0, Some(LogLine::new("a", "10:05 v"))));
    assert!(matches!(engine.step(), MergeStep::Done));
    let mut none = MergeEngine::new(0);
    assert_eq!(none.slots(), 0);
    assert!(!none.supply(0, None));
    assert!(matches!(none.step(), MergeStep::Done));
}

#[test]
fn merging_sources_in_order_gives_a_stream_in_order() {
    let sources = vec![
        source("a.log", &["10:00.001 a1", "10:00.004 a2", "10:00.009 a3"]),
        source("b.log", &["10:00.002 b1", "10:00.003 b2", "10:00.010 b3"]),
        source("c.log", &[]),
        source("d.log", &["10:00.000 d1"]),
    ];
    let merged = merge_records(&sources);
    assert_eq!(
        values(&merged),
        vec![
            "10:00.000 d1",
            "10:00.001 a1",
            "10:00.002 b1",
            "10:00.003 b2",
            "10:00.004 a2",
            "10:00.009 a3",
            "10:00.010 b3",
        ]
    );
    let names: Vec<String> = merged.iter().map(|l| l.filename()).collect();
    assert_eq!(names, vec!["d.log", "a.log", "b.log", "b.log", "a.log", "a.log", "b.log"]);
    for pair in merged.windows(2) {
        assert!(pair[0].value() <= pair[1].value());
    }
}

#[test]
fn merging_one_source_gives_it_back() {
    let lines = ["10:00.003 late first", "10:00.001 a", "10:00.002 b", "10:00.002 b"];
    let merged = merge_records(&vec![source("only.log", &lines)]);
    assert_eq!(values(&merged), lines);
    assert!(merged.iter().all(|l| l.filename() == "only.log"));
}

#[test]
fn merging_keeps_records_that_are_the_same_text() {
    let sources = vec![
        source("a.log", &["10:00 same", "10:01 a"]),
        source("b.log", &["10:00 same", "10:00 same", "10:02 b"]),
    ];
    let merged = merge_records(&sources);
    assert_eq!(
        values(&merged),
        vec!["10:00 same", "10:00 same", "10:00 same", "10:01 a", "10:02 b"]
    );
    let from_a = merged.iter().filter(|l| l.filename() == "a.log").count();
    let from_b = merged.iter().filter(|l| l.filename() == "b.log").count();
    assert_eq!((from_a, from_b), (2, 3));
}

#[test]
fn merging_nothing_gives_nothing() {
    assert!(merge_records(&vec![]).is_empty());
    assert!(merge_records(&vec![source("a", &[]), source("b", &[])]).is_empty());
}

#[test]
fn merging_keeps_the_order_within_each_source() {
    let sources = vec![source("a", &["3", "1", "2"]), source("b", &["2", "0"])];
    let merged = merge_records(&sources);
    assert_eq!(values(&merged), vec!["2", "0", "3", "1", "2"]);
    let from_a: Vec<String> =
        merged.iter().filter(|l| l.filename() == "a").map(|l| l.value()).collect();
    assert_eq!(from_a, vec!["3", "1", "2"]);
}

#[test]
fn read_sources_reassembles_each_source() {
    let pattern = Pattern::new(PREFIX).unwrap();
    let files = vec![
        source("a.log", &["2021-09-26 20:00:00.001 a", "  more", "2021-09-26 20:00:00.005 b"]),
        source("b.log", &[]),
    ];
    assert_eq!(
        read_sources(&pattern, &files),
        vec![
            source("a.log", &["2021-09-26 20:00:00.001 a\n  more", "2021-09-26 20:00:00.005 b"]),
            source("b.log", &[]),
        ]
    );
}

#[test]
fn write_log_writes_to_the_bucket_of_the_timestamp() {
    let pattern = Pattern::new(PREFIX).unwrap();
    let mut plan = Plan::open("out.%Y%m%d-%H.log", 0);
    plan.take_actions();
    write_log(&mut plan, &pattern, TIME_FORMAT, "2021-09-26 20:59:59.999 last of the hour");
    write_log(&mut plan, &pattern, TIME_FORMAT, "2021-09-26 21:00:00.000 first of the next");
    assert_eq!(
        plan.take_actions(),
        vec![
            SinkAction::Close { name: "out.19700101-00.log".to_string(), unwritten: false },
            SinkAction::Open { name: "out.20210926-20.log".to_string(), append: false, level: 0 },
            SinkAction::Write { text: "2021-09-26 20:59:59.999 last of the hour".to_string() },
            SinkAction::Close { name: "out.20210926-20.log".to_string(), unwritten: false },
            SinkAction::Open { name: "out.20210926-21.log".to_string(), append: false, level: 0 },
            SinkAction::Write { text: "2021-09-26 21:00:00.000 first of the next".to_string() },
        ]
    );
    write_log(&mut plan, &pattern, TIME_FORMAT, "no timestamp");
    assert_eq!(plan.failure(), Some(LogError::InvalidTimestamp));
}

#[test]
fn reduce_merges_reassembles_and_rotates() {
    let files = vec![
        source(
            "a.log",
            &[
                "2021-09-26 20:00:00.001 a1",
                "  a1 goes on",
                "2021-09-26 20:30:00.000 a2",
                "2021-09-26 21:00:00.002 a3",
            ],
        ),
        source("b.log", &["2021-09-26 20:15:00.000 b1", "2021-09-26 21:00:00.001 b2"]),
    ];
    let outcome = reduce_logs(&files, PREFIX, TIME_FORMAT, "out/app.%Y%m%d-%H.log", 9);
    assert_eq!(outcome.failure, None);
    assert_eq!(
        outcome.actions,
        vec![
            SinkAction::Open {
                name: "out/app.19700101-00.log.gz".to_string(),
                append: false,
                level: 9
            },
            SinkAction::Close { name: "out/app.19700101-00.log.gz".to_string(), unwritten: true },
            SinkAction::Open {
                name: "out/app.20210926-20.log.gz".to_string(),
                append: false,
                level: 9
            },
            SinkAction::Write { text: "2021-09-26 20:00:00.001 a1\n  a1 goes on".to_string() },
            SinkAction::Write { text: "2021-09-26 20:15:00.000 b1".to_string() },
            SinkAction::Write { text: "2021-09-26 20:30:00.000 a2".to_string() },
            SinkAction::Close { name: "out/app.20210926-20.log.gz".to_string(), unwritten: false },
            SinkAction::Open {
                name: "out/app.20210926-21.log.gz".to_string(),
                append: false,
                level: 9
            },
            SinkAction::Write { text: "2021-09-26 21:00:00.001 b2".to_string() },
            SinkAction::Write { text: "2021-09-26 21:00:00.002 a3".to_string() },
            SinkAction::Flush,
        ]
    );
}

#[test]
fn reduce_of_one_source_writes_its_records_in_their_order() {
    let lines = [
        "2021-09-26 20:00:00.001 a",
        "  more of a",
        "2021-09-26 20:00:00.002 b",
        "2021-09-26 20:00:00.003 c",
    ];
    let outcome = reduce_logs(&vec![source("a.log", &lines)], PREFIX, TIME_FORMAT, "out.log", 0);
    assert_eq!(outcome.failure, None);
    assert_eq!(
        writes(&outcome.actions),
        vec![
            "2021-09-26 20:00:00.001 a\n  more of a",
            "2021-09-26 20:00:00.002 b",
            "2021-09-26 20:00:00.003 c",
        ]
    );
}

#[test]
fn reduce_output_is_in_order() {
    let files = vec![
        source("a", &["2021-09-26 20:00:00.005 a", "2021-09-26 20:00:00.009 a"]),
        source("b", &["2021-09-26 20:00:00.001 b", "2021-09-26 20:00:00.007 b"]),
        source("c", &["2021-09-26 20:00:00.003 c", "2021-09-26 20:00:00.003 c"]),
    ];
    let outcome = reduce_logs(&files, PREFIX, TIME_FORMAT, "out.log", 0);
    let written = writes(&outcome.actions);
    assert_eq!(written.len(), 6);
    for pair in written.windows(2) {
        assert!(pair[0] <= pair[1]);
    }
}

#[test]
fn reduce_without_sources_opens_and_flushes() {
    let outcome = reduce_logs(&vec![], PREFIX, TIME_FORMAT, "out.%Y%m%d-%H.log", 0);
    assert_eq!(outcome.failure, None);
    assert_eq!(
        outcome.actions,
        vec![
            SinkAction::Open { name: "out.19700101-00.log".to_string(), append: false, level: 0 },
            SinkAction::Flush,
        ]
    );
}

#[test]
fn reduce_fails_on_a_start_pattern_that_does_not_compile() {
    let files = vec![source("a", &["2021-09-26 20:00:00.005 a"])];
    let outcome = reduce_logs(&files, "^(\\d{4}", TIME_FORMAT, "out.log", 0);
    assert_eq!(outcome.failure, Some(LogError::InvalidPattern));
    assert_eq!(
        outcome.actions,
        vec![SinkAction::Open { name: "out.log".to_string(), append: true, level: 0 }]
    );
}

#[test]
fn reduce_fails_on_a_name_that_cannot_be_rendered() {
    let files = vec![source("a", &["2021-09-26 20:00:00.005 a"])];
    let outcome = reduce_logs(&files, PREFIX, TIME_FORMAT, "out.%Q.log", 0);
    assert_eq!(outcome.failure, Some(LogError::InvalidFileName));
    assert_eq!(outcome.actions, vec![]);
}

#[test]
fn reduce_fails_on_a_record_without_a_timestamp_and_keeps_what_was_written() {
    let files = vec![source(
        "a",
        &["2021-09-26 20:00:00.005 good", "2021-09-26 20:61:00.000 no such minute", "2021-09-26 20:00:00.009 x"],
    )];
    let outcome = reduce_logs(&files, PREFIX, TIME_FORMAT, "out.log", 0);
    assert_eq!(outcome.failure, Some(LogError::InvalidTimestamp));
    assert_eq!(
        outcome.actions,
        vec![
            SinkAction::Open { name: "out.log".to_string(), append: true, level: 0 },
            SinkAction::Write { text: "2021-09-26 20:00:00.005 good".to_string() },
        ]
    );
}

#[test]
fn reduce_fails_on_a_leading_fragment() {
    let files = vec![source("a", &["  cut off", "2021-09-26 20:00:00.005 whole"])];
    let outcome = reduce_logs(&files, PREFIX, TIME_FORMAT, "out.log", 0);
    assert_eq!(outcome.failure, Some(LogError::InvalidTimestamp));
    assert_eq!(writes(&outcome.actions), Vec::<String>::new());
}

#[test]
fn test_reduce_log() {
    let files = vec![source(
        "/Users/nanashi07/Desktop/2021/09/big/real/source/app.2021-09-26.20.real-sports-game-7b88668458-vrlrw.log",
        &[],
    )];

    let outcome = reduce_logs(
        &files,
        r#"^(\d{4}-\d{2}-\d{2} \d{2}:\d{2}:\d{2}.\d{3})"#,
        "%Y-%m-%d %H:%M:%S%.3f",
        "/Users/nanashi07/Desktop/2021/09/big/real/tt/trace.output.log",
        9,
    );
    assert_eq!(outcome.failure, None);
    assert_eq!(
        outcome.actions,
        vec![
            SinkAction::Open {
                name: "/Users/nanashi07/Desktop/2021/09/big/real/tt/trace.output.log.gz"
                    .to_string(),
                append: true,
                level: 9
            },
            SinkAction::Flush,
        ]
    );
}

#[test]
fn write_log_at_goes_by_the_time_it_is_given() {
    let mut plan = Plan::open("out.%Y%m%d-%H.log", 0);
    plan.take_actions();
    write_log_at(&mut plan, Some(3_600_000), "in bucket one");
    assert_eq!(
        plan.take_actions(),
        vec![
            SinkAction::Close { name: "out.19700101-00.log".to_string(), unwritten: false },
            SinkAction::Open { name: "out.19700101-01.log".to_string(), append: false, level: 0 },
            SinkAction::Write { text: "in bucket one".to_string() },
        ]
    );
    write_log_at(&mut plan, Some(-1), "before the epoch");
    assert_eq!(
        plan.take_actions(),
        vec![
            SinkAction::Close { name: "out.19700101-01.log".to_string(), unwritten: false },
            SinkAction::Open { name: "out.19691231-23.log".to_string(), append: false, level: 0 },
            SinkAction::Write { text: "before the epoch".to_string() },
        ]
    );
    write_log_at(&mut plan, None, "no time");
    assert_eq!(plan.failure(), Some(LogError::InvalidTimestamp));
    assert_eq!(plan.take_actions(), vec![]);
}

#[test]
fn a_log_line_precedes_by_its_text_alone() {
    let early = LogLine::new("z.log", "10:00 a");
    let late = LogLine::new("a.log", "10:01 a");
    let same = LogLine::new("m.log", "10:00 a");
    assert!(early.precedes(&late));
    assert!(!late.precedes(&early));
    assert!(early.precedes(&same));
    assert!(same.precedes(&early));
}

#[test]
fn a_log_line_is_the_same_record_only_with_the_same_source_and_text() {
    let a = LogLine::new("a.log", "x");
    let b = LogLine::new("b.log", "x");
    let c = LogLine::new("a.log", "x");
    let d = LogLine::new("a.log", "y");
    assert!(a != b);
    assert!(a == c);
    assert!(a != d);
    assert!(b != c);
    assert!(a == a);
}

#[test]
fn log_lines_are_ordered_by_their_text_and_then_by_their_source() {
    let early = LogLine::new("z.log", "10:00 a");
    let late = LogLine::new("a.log", "10:01 a");
    assert!(early < late);
    assert!(late > early);
    assert!(early <= late);
    assert!(!(late < early));
    assert_eq!(early.partial_cmp(&late), Some(std::cmp::Ordering::Less));
    assert_eq!(late.partial_cmp(&early), Some(std::cmp::Ordering::Greater));

    let a = LogLine::new("a.log", "x");
    let b = LogLine::new("b.log", "x");
    let c = LogLine::new("a.log", "x");
    assert_eq!(a.partial_cmp(&b), Some(std::cmp::Ordering::Less));
    assert_eq!(b.partial_cmp(&a), Some(std::cmp::Ordering::Greater));
    assert_eq!(a.partial_cmp(&c), Some(std::cmp::Ordering::Equal));
    assert!(a < b);
    assert!(a <= c && a >= c);
    // in a merge either of two records with one text may come first
    assert!(a.precedes(&b) && b.precedes(&a));
}

/// The next record of a source that is read line by line.
fn next_record(
    reader: &mut WrappedFileReader,
    lines: &[String],
    at: &mut usize,
) -> Option<String> {
    loop {
        let step = if *at < lines.len() {
            *at += 1;
            reader.next_log(Some(&lines[*at - 1]))
        } else {
            reader.next_log(None)
        };
        match step {
            Some(Log::Line(record)) => return Some(record),
            Some(Log::EOF) => return None,
            None => {}
        }
    }
}

#[test]
fn reducing_step_by_step_plans_what_reducing_at_once_plans() {
    let files = vec![
        source(
            "a.log",
            &[
                "2021-09-26 20:00:00.001 a1",
                "  a1 goes on",
                "2021-09-26 20:59:59.000 a2",
                "2021-09-26 22:00:00.002 a3",
                "  a3 goes on",
            ],
        ),
        source("b.log", &[]),
        source("c.log", &["2021-09-26 20:15:00.000 c1", "2021-09-26 21:00:00.001 c2"]),
    ];
    let at_once = reduce_logs(&files, PREFIX, TIME_FORMAT, "out.%Y%m%d-%H.log", 3);

    let mut reduction = Reduction::begin(PREFIX, TIME_FORMAT, "out.%Y%m%d-%H.log", 3);
    let mut actions = reduction.take_actions();
    let mut readers: Vec<WrappedFileReader> = files
        .iter()
        .map(|file| WrappedFileReader::new(&file.name, PREFIX, false).unwrap())
        .collect();
    let mut read: Vec<usize> = vec![0; files.len()];
    let mut engine = MergeEngine::new(files.len());
    loop {
        match engine.step() {
            MergeStep::Need(slot) => {
                let head = next_record(&mut readers[slot], &files[slot].lines, &mut read[slot]);
                assert!(engine.supply(slot, head.map(|r| LogLine::new(&files[slot].name, &r))));
            }
            MergeStep::Send(slot, line) => {
                assert_eq!(line.filename(), files[slot].name);
                reduction.write(line.text());
                actions.extend(reduction.take_actions());
                assert_eq!(reduction.failure(), None);
            }
            MergeStep::Done => break,
        }
    }
    let end = reduction.finish();
    actions.extend(end.actions);
    assert_eq!(end.failure, None);
    assert_eq!(at_once.failure, None);
    assert_eq!(actions, at_once.actions);
    assert_eq!(writes(&at_once.actions).len(), 5);
}

#[test]
fn a_reduction_without_a_start_pattern_is_stopped_and_writes_nothing() {
    let mut reduction = Reduction::begin("^(\\d{4}", TIME_FORMAT, "out.log", 0);
    assert_eq!(reduction.failure(), Some(LogError::InvalidPattern));
    reduction.write("2021-09-26 20:00:00.001 a1");
    let outcome = reduction.finish();
    assert_eq!(outcome.failure, Some(LogError::InvalidPattern));
    assert_eq!(
        outcome.actions,
        vec![SinkAction::Open { name: "out.log".to_string(), append: true, level: 0 }]
    );
}

#[test]
fn a_reduction_stops_at_a_record_without_a_timestamp() {
    let mut reduction = Reduction::begin(PREFIX, TIME_FORMAT, "out.log", 0);
    reduction.take_actions();
    reduction.write("2021-09-26 20:00:00.001 a1");
    reduction.write("no timestamp");
    reduction.write("2021-09-26 20:00:00.002 a2");
    assert_eq!(reduction.failure(), Some(LogError::InvalidTimestamp));
    assert_eq!(
        reduction.take_actions(),
        vec![SinkAction::Write { text: "2021-09-26 20:00:00.001 a1".to_string() }]
    );
    assert_eq!(reduction.finish().actions, vec![]);
}
