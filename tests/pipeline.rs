use std::io::Write;

use flate2::write::GzEncoder;
use flate2::Compression;
use gzcat_logs::{sort_files, Action, Event, Phase, Pipeline, PipelineError, SegmentDecoder};

fn compress(data: &[u8]) -> Vec<u8> {
    let mut e = GzEncoder::new(Vec::new(), Compression::default());
    e.write_all(data).unwrap();
    e.finish().unwrap()
}

/// Runs the pipeline over in-memory segments; `None` stands for a file that
/// cannot be opened. Returns the sink, the segments asked for, and the outcome.
fn drive(
    names: Vec<String>,
    files: &[(&str, Option<Vec<u8>>)],
) -> (Vec<u8>, Vec<String>, Result<(), PipelineError>) {
    let mut sink = Vec::new();
    let mut asked = Vec::new();
    let mut p = Pipeline::new(names);
    loop {
        let event = match p.next_action() {
            Action::Copy { index, total, name } => {
                assert!(index < total);
                asked.push(name.clone());
                let found = files.iter().find(|(n, _)| *n == name.as_str()).unwrap();
                match &found.1 {
                    None => Event::OpenFailed { cause: String::from("not found") },
                    Some(bytes) => {
                        let mut d = SegmentDecoder::new();
                        let mut failed = None;
                        for piece in bytes.chunks(3) {
                            match d.feed(piece) {
                                Ok(out) => sink.extend(out),
                                Err(cause) => {
                                    failed = Some(cause);
                                    break;
                                }
                            }
                        }
                        let failed = match failed {
                            Some(cause) => Some(cause),
                            None => match d.finish() {
                                Ok(out) => {
                                    sink.extend(out);
                                    None
                                }
                                Err(cause) => Some(cause),
                            },
                        };
                        match failed {
                            None => Event::Copied,
                            Some(cause) => Event::DecompressFailed { cause },
                        }
                    }
                }
            }
            Action::Flush => Event::Flushed,
            Action::Stop => break,
        };
        p.handle(event);
    }
    (sink, asked, p.outcome())
}

fn segments() -> Vec<(&'static str, Option<Vec<u8>>)> {
    vec![
        ("s.log.3.gz", Some(compress(b"C"))),
        ("s.log.1.gz", Some(compress(b"A"))),
        ("s.log.2.gz", Some(compress(b"B"))),
    ]
}

#[test]
fn round_trip_single_segment() {
    let files = vec![("x.log.1.gz", Some(compress(b"Hello World\n")))];
    let (sink, _, r) = drive(vec![String::from("x.log.1.gz")], &files);
    assert_eq!(r, Ok(()));
    assert_eq!(sink, b"Hello World\n".to_vec());
}

#[test]
fn segments_concatenate_in_key_order() {
    let files = segments();
    let input: Vec<String> = files.iter().map(|(n, _)| String::from(*n)).collect();
    let ordered = sort_files(&input).unwrap();
    let (sink, asked, r) = drive(ordered, &files);
    assert_eq!(r, Ok(()));
    assert_eq!(sink, b"ABC".to_vec());
    assert_eq!(asked, vec!["s.log.1.gz", "s.log.2.gz", "s.log.3.gz"]);
}

#[test]
fn missing_second_segment_aborts() {
    let mut files = segments();
    files[2].1 = None;
    let input: Vec<String> = files.iter().map(|(n, _)| String::from(*n)).collect();
    let ordered = sort_files(&input).unwrap();
    let (sink, asked, r) = drive(ordered, &files);
    assert_eq!(
        r,
        Err(PipelineError::SegmentOpenFailed {
            name: String::from("s.log.2.gz"),
            cause: String::from("not found"),
        })
    );
    assert_eq!(sink, b"A".to_vec());
    assert_eq!(asked, vec!["s.log.1.gz", "s.log.2.gz"]);
}

#[test]
fn corrupt_segment_aborts() {
    let files = vec![
        ("s.log.1.gz", Some(compress(b"A"))),
        ("s.log.2.gz", Some(b"garbage".to_vec())),
        ("s.log.3.gz", Some(compress(b"C"))),
    ];
    let input: Vec<String> = files.iter().map(|(n, _)| String::from(*n)).collect();
    let (_, asked, r) = drive(input, &files);
    assert!(matches!(r, Err(PipelineError::DecompressionFailed { ref name, .. }) if name == "s.log.2.gz"));
    assert_eq!(asked, vec!["s.log.1.gz", "s.log.2.gz"]);
}

#[test]
fn rerun_gives_identical_output() {
    let files = segments();
    let input: Vec<String> = files.iter().map(|(n, _)| String::from(*n)).collect();
    let first = drive(sort_files(&input).unwrap(), &files);
    let second = drive(sort_files(&input).unwrap(), &files);
    assert_eq!(first.0, second.0);
    assert_eq!(first.2, second.2);
}

#[test]
fn empty_run_only_flushes() {
    let mut p = Pipeline::new(Vec::new());
    assert!(matches!(p.next_action(), Action::Flush));
    p.handle(Event::Flushed);
    assert!(matches!(p.phase, Phase::Done));
    assert!(matches!(p.next_action(), Action::Stop));
    assert_eq!(p.outcome(), Ok(()));
}

#[test]
fn sink_failure_is_reported() {
    let mut p = Pipeline::new(vec![String::from("a.1.gz")]);
    p.handle(Event::SinkFailed { cause: String::from("disk full") });
    assert!(matches!(p.next_action(), Action::Stop));
    assert_eq!(
        p.outcome(),
        Err(PipelineError::SinkIOFailed { cause: String::from("disk full") })
    );
}

#[test]
fn events_after_failure_are_ignored() {
    let mut p = Pipeline::new(vec![String::from("a.1.gz"), String::from("a.2.gz")]);
    p.handle(Event::OpenFailed { cause: String::from("gone") });
    p.handle(Event::Copied);
    p.handle(Event::Flushed);
    assert_eq!(p.completed, 0);
    assert!(matches!(p.next_action(), Action::Stop));
    assert_eq!(
        p.outcome(),
        Err(PipelineError::SegmentOpenFailed {
            name: String::from("a.1.gz"),
            cause: String::from("gone"),
        })
    );
}

#[test]
fn flush_before_last_copy_is_ignored() {
    let mut p = Pipeline::new(vec![String::from("a.1.gz")]);
    p.handle(Event::Flushed);
    match p.next_action() {
        Action::Copy { index, total, name } => {
            assert_eq!((index, total, name.as_str()), (0, 1, "a.1.gz"));
        }
        other => panic!("unexpected action {:?}", other),
    }
    p.handle(Event::Copied);
    assert!(matches!(p.next_action(), Action::Flush));
}
