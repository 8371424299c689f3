use fqcn_rename::matched_file::{Line, MatchedFile};
use fqcn_rename::rg_worker::{
    decode_record, finished, line_record, MatchedFileBuilder, ProcessStatus, Record,
    StreamingResultParser, Teardown, WorkerError, WorkerState,
};

const BEGIN: &str = r#"{"type":"begin","data":{"path":{"text":"src/Foo.java"}}}"#;
const MATCH: &str = r#"{"type":"match","data":{"path":{"text":"src/Foo.java"},"lines":{"text":"import foo.bar.Baz;\n"},"line_number":3,"absolute_offset":20,"submatches":[{"match":{"text":"foo.bar.Baz"},"start":7,"end":18}]}}"#;
const CONTEXT: &str = r#"{"type":"context","data":{"path":{"text":"src/Foo.java"},"lines":{"text":"\n"},"line_number":4,"absolute_offset":40,"submatches":[]}}"#;
const END: &str = r#"{"type":"end","data":{"path":{"text":"src/Foo.java"},"binary_offset":null,"stats":{}}}"#;
const SUMMARY: &str = r#"{"data":{"elapsed_total":{"human":"0.01s","nanos":1,"secs":0}},"type":"summary"}"#;

fn stream() -> Vec<u8> {
    format!("{}\n{}\n{}\n", BEGIN, MATCH, END).into_bytes()
}

fn expected_file() -> MatchedFile {
    MatchedFile::new(
        "src/Foo.java",
        vec![Line::new(2, "import foo.bar.Baz;\n", vec![7..18])],
    )
}

fn feed_in_chunks(bytes: &[u8], cuts: &[usize]) -> Vec<MatchedFile> {
    let mut parser = StreamingResultParser::new();
    let mut results = Vec::new();
    let mut from = 0;
    for cut in cuts {
        assert_eq!(Ok(()), parser.feed(&bytes[from..*cut], &mut results));
        from = *cut;
    }
    assert_eq!(Ok(()), parser.feed(&bytes[from..], &mut results));
    assert_eq!(Ok(()), parser.finish(&mut results));
    results
}

#[test]
fn test_one_chunk_gives_one_file() {
    let bytes = stream();
    assert_eq!(vec![expected_file()], feed_in_chunks(&bytes, &[]));
}

#[test]
fn test_chunks_give_what_one_chunk_gives() {
    let bytes = stream();
    let whole = feed_in_chunks(&bytes, &[]);
    assert_eq!(1, whole.len());
    assert_eq!(1, whole[0].lines().len());
    for cut in 0..=bytes.len() {
        assert_eq!(whole, feed_in_chunks(&bytes, &[cut]));
    }
    assert_eq!(whole, feed_in_chunks(&bytes, &[10, 11, 90, 200]));
}

#[test]
fn test_no_file_before_its_end() {
    let mut parser = StreamingResultParser::new();
    let mut results = Vec::new();
    let bytes = format!("{}\n{}\n", BEGIN, MATCH).into_bytes();
    assert_eq!(Ok(()), parser.feed(&bytes, &mut results));
    assert!(results.is_empty());
    assert_eq!(Ok(()), parser.feed(END.as_bytes(), &mut results));
    assert!(results.is_empty());
    assert_eq!(Ok(()), parser.feed(b"\n", &mut results));
    assert_eq!(vec![expected_file()], results);
}

#[test]
fn test_last_record_needs_no_newline() {
    let mut parser = StreamingResultParser::new();
    let mut results = Vec::new();
    let bytes = format!("{}\n{}\n{}", BEGIN, MATCH, END).into_bytes();
    assert_eq!(Ok(()), parser.feed(&bytes, &mut results));
    assert!(results.is_empty());
    assert_eq!(Ok(()), parser.finish(&mut results));
    assert_eq!(vec![expected_file()], results);
}

#[test]
fn test_split_inside_a_character() {
    let text = "{\"type\":\"begin\",\"data\":{\"path\":{\"text\":\"src/Bäz.java\"}}}\n{\"type\":\"end\"}\n";
    let bytes = text.as_bytes();
    let cut = text.find('ä').unwrap() + 1;
    let files = feed_in_chunks(bytes, &[cut]);
    assert_eq!(vec![MatchedFile::new("src/Bäz.java", vec![])], files);
}

#[test]
fn test_two_files_with_context_and_summary() {
    let bytes = format!(
        "{}\n{}\n{}\n{}\n{}\n{}\n{}\n",
        BEGIN, MATCH, CONTEXT, END, BEGIN, END, SUMMARY
    )
    .into_bytes();
    let files = feed_in_chunks(&bytes, &[5]);
    assert_eq!(2, files.len());
    assert_eq!(
        MatchedFile::new(
            "src/Foo.java",
            vec![
                Line::new(2, "import foo.bar.Baz;\n", vec![7..18]),
                Line::new(3, "\n", vec![]),
            ],
        ),
        files[0]
    );
    assert_eq!(MatchedFile::new("src/Foo.java", vec![]), files[1]);
}

#[test]
fn test_decode_record_kinds() {
    assert_eq!(
        Ok(Record::Begin {
            path: "src/Foo.java".to_owned()
        }),
        decode_record(BEGIN)
    );
    assert_eq!(
        Ok(Record::Match {
            line_number: 2,
            text: "import foo.bar.Baz;\n".to_owned(),
            submatches: vec![7..18],
        }),
        decode_record(MATCH)
    );
    assert_eq!(
        Ok(Record::Context {
            line_number: 3,
            text: "\n".to_owned(),
        }),
        decode_record(CONTEXT)
    );
    assert_eq!(Ok(Record::End), decode_record(END));
    assert_eq!(Ok(Record::Other), decode_record(SUMMARY));
    assert_eq!(Ok(Record::Other), decode_record("{}"));
}

#[test]
fn test_decode_record_errors() {
    assert_eq!(Err(WorkerError::Malformed), decode_record("{\"type\":"));
    assert_eq!(Err(WorkerError::Malformed), decode_record("\n"));
    assert_eq!(
        Err(WorkerError::MissingField),
        decode_record(r#"{"type":"begin","data":{}}"#)
    );
    assert_eq!(
        Err(WorkerError::MissingField),
        decode_record(r#"{"type":"match","data":{"lines":{"text":"abc"},"line_number":1}}"#)
    );
    assert_eq!(
        Err(WorkerError::MissingField),
        decode_record(
            r#"{"type":"match","data":{"lines":{"text":"abc"},"line_number":1,"submatches":[{"start":0}]}}"#
        )
    );
    assert_eq!(
        Err(WorkerError::MissingField),
        decode_record(r#"{"type":"context","data":{"lines":{"text":"abc"}}}"#)
    );
    assert_eq!(
        Err(WorkerError::MissingField),
        decode_record(r#"{"type":"context","data":{"lines":{"bytes":"YWJj"},"line_number":1}}"#)
    );
    assert_eq!(
        Err(WorkerError::BadLineNumber),
        decode_record(r#"{"type":"context","data":{"lines":{"text":"abc"},"line_number":0}}"#)
    );
    assert_eq!(
        Err(WorkerError::BadSubmatches),
        decode_record(
            r#"{"type":"match","data":{"lines":{"text":"abc"},"line_number":1,"submatches":[{"start":2,"end":9}]}}"#
        )
    );
    assert_eq!(
        Err(WorkerError::BadSubmatches),
        decode_record(
            r#"{"type":"match","data":{"lines":{"text":"abcdef"},"line_number":1,"submatches":[{"start":2,"end":4},{"start":3,"end":5}]}}"#
        )
    );
    assert_eq!(
        Err(WorkerError::BadSubmatches),
        decode_record(
            r#"{"type":"match","data":{"lines":{"text":"äbc"},"line_number":1,"submatches":[{"start":1,"end":3}]}}"#
        )
    );
}

#[test]
fn test_line_record() {
    assert_eq!(
        Ok(Record::Match {
            line_number: 0,
            text: "abc\n".to_owned(),
            submatches: vec![0..1, 1..3],
        }),
        line_record(1, "abc\n", vec![0..1, 1..3])
    );
    assert_eq!(
        Ok(Record::Context {
            line_number: 41,
            text: "".to_owned(),
        }),
        line_record(42, "", vec![])
    );
    assert_eq!(
        Err(WorkerError::BadLineNumber),
        line_record(0, "abc", vec![0..1])
    );
    assert_eq!(
        Err(WorkerError::BadLineNumber),
        line_record(0, "abc", vec![2..9])
    );
    assert_eq!(
        Err(WorkerError::BadSubmatches),
        line_record(1, "abc", vec![2..9])
    );
    assert_eq!(
        Err(WorkerError::BadSubmatches),
        line_record(1, "abc", vec![1..1])
    );
    assert_eq!(
        Err(WorkerError::BadSubmatches),
        line_record(1, "abc", vec![1..3, 0..1])
    );
    assert_eq!(
        Ok(Record::Context {
            line_number: (u64::MAX - 1) as usize,
            text: "x".to_owned(),
        }),
        line_record(u64::MAX, "x", vec![])
    );
}

#[test]
fn test_missing_fields_come_first() {
    assert_eq!(
        Err(WorkerError::MissingField),
        decode_record(r#"{"type":"context","data":{"line_number":0}}"#)
    );
}

#[test]
fn test_three_records_in_any_chunks() {
    let bytes = stream();
    for first in 0..=bytes.len() {
        for second in first..=bytes.len() {
            assert_eq!(
                vec![expected_file()],
                feed_in_chunks(&bytes, &[first, second])
            );
        }
    }
    let each_byte: Vec<usize> = (1..bytes.len()).collect();
    assert_eq!(vec![expected_file()], feed_in_chunks(&bytes, &each_byte));
}

#[test]
fn test_failing_record_stops_the_reading() {
    let mut parser = StreamingResultParser::new();
    let mut results = Vec::new();
    let bytes = format!("{}\n{}\nnot json\n{}\n{}\n", BEGIN, END, BEGIN, END).into_bytes();
    assert_eq!(
        Err(WorkerError::Malformed),
        parser.feed(&bytes, &mut results)
    );
    assert_eq!(vec![MatchedFile::new("src/Foo.java", vec![])], results);
}

#[test]
fn test_bytes_that_are_no_text() {
    let mut parser = StreamingResultParser::new();
    let mut results = Vec::new();
    assert_eq!(
        Err(WorkerError::NotText),
        parser.feed(&[0x7b, 0xff, 0x7d, 0x0a], &mut results)
    );
    assert!(results.is_empty());
}

#[test]
fn test_builder_gathers_until_end() {
    let mut builder = MatchedFileBuilder::default();
    assert_eq!(
        None,
        builder.apply(Record::Begin {
            path: "a/B.java".to_owned()
        })
    );
    assert_eq!(
        None,
        builder.apply(Record::Context {
            line_number: 0,
            text: "one\n".to_owned()
        })
    );
    assert_eq!(None, builder.apply(Record::Other));
    assert_eq!(
        None,
        builder.apply(Record::Match {
            line_number: 1,
            text: "two\n".to_owned(),
            submatches: vec![0..3],
        })
    );
    assert_eq!(
        Some(MatchedFile::new(
            "a/B.java",
            vec![Line::new(0, "one\n", vec![]), Line::new(1, "two\n", vec![0..3])],
        )),
        builder.apply(Record::End)
    );
    assert_eq!(MatchedFile::new("", vec![]), builder.build());
}

#[test]
fn test_worker_finished_needs_both() {
    assert!(!finished(false, ProcessStatus::Running));
    assert!(!finished(true, ProcessStatus::Running));
    assert!(!finished(false, ProcessStatus::Exited));
    assert!(finished(true, ProcessStatus::Exited));
    assert!(finished(true, ProcessStatus::Unknown));
}

#[test]
fn test_worker_states() {
    let running = WorkerState::Running;
    assert_eq!(
        WorkerState::Running,
        running.polled(true, ProcessStatus::Running)
    );
    assert_eq!(
        WorkerState::Finished,
        running.polled(true, ProcessStatus::Exited)
    );
    assert_eq!(
        WorkerState::Killed,
        WorkerState::Killed.polled(true, ProcessStatus::Exited)
    );
    let both = Teardown {
        terminate: true,
        join: true,
    };
    assert_eq!((WorkerState::Killed, both), WorkerState::Running.kill());
    assert_eq!((WorkerState::Killed, both), WorkerState::Finished.kill());
    assert_eq!(
        (
            WorkerState::Killed,
            Teardown {
                terminate: false,
                join: false
            }
        ),
        WorkerState::Killed.kill()
    );
}
