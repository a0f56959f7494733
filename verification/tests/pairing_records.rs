use scanner_processor::error::ProcessorError;
use scanner_processor::pairing::{plan_startup, wants_event, FileEventKind, StartupPlan, WatcherState};
use scanner_processor::records::{parse_processed_pairs, record_line, ProcessedPairs};

#[test]
fn record_line_is_lower_comma_higher() {
    assert_eq!(record_line(4884, 4883), "4883,4884\n");
    assert_eq!(record_line(0, 10), "0,10\n");
}

#[test]
fn record_written_then_read_back() {
    let mut content = String::new();
    content.push_str(&record_line(12, 11));
    content.push_str(&record_line(4883, 4884));
    let pairs = parse_processed_pairs(&content);
    assert!(pairs.contains(11, 12));
    assert!(pairs.contains(4883, 4884));
    assert_eq!(pairs.len(), 2);
}

#[test]
fn record_parsing_skips_bad_lines_and_trims() {
    let content = " 7 , 3 \r\nnot,a,pair\n9\n5,x\n+1,2\n\n4294967296,1\n";
    let pairs = parse_processed_pairs(content);
    assert!(pairs.contains(3, 7));
    assert!(pairs.contains(1, 2));
    assert_eq!(pairs.len(), 2);
}

#[test]
fn startup_pairs_sorted_counters_two_by_two() {
    let files = vec![
        (12u32, "d/doc000012.pdf".to_string()),
        (10u32, "d/doc000010.pdf".to_string()),
        (13u32, "d/doc000013.pdf".to_string()),
        (11u32, "d/doc000011.pdf".to_string()),
    ];
    let mut processed = ProcessedPairs::new();
    processed.insert(12, 13);
    match plan_startup(&files, &processed) {
        StartupPlan::Pairs(ps) => {
            assert_eq!(ps.len(), 2);
            assert_eq!((ps[0].counter_a, ps[0].counter_b), (10, 11));
            assert_eq!(ps[0].file_a, "d/doc000010.pdf");
            assert!(!ps[0].already_processed);
            assert_eq!((ps[1].counter_a, ps[1].counter_b), (12, 13));
            assert!(ps[1].already_processed);
        }
        StartupPlan::OddCount(_) => panic!("even count expected"),
    }
}

#[test]
fn startup_with_odd_count_processes_nothing() {
    let files = vec![
        (1u32, "a".to_string()),
        (2u32, "b".to_string()),
        (2u32, "c".to_string()),
        (3u32, "d".to_string()),
    ];
    match plan_startup(&files, &ProcessedPairs::new()) {
        StartupPlan::OddCount(n) => assert_eq!(n, 3),
        StartupPlan::Pairs(_) => panic!("odd count expected"),
    }
}

#[test]
fn duplicate_counter_keeps_the_file_listed_last() {
    let files = vec![(1u32, "old".to_string()), (2u32, "b".to_string()), (1u32, "new".to_string())];
    match plan_startup(&files, &ProcessedPairs::new()) {
        StartupPlan::Pairs(ps) => assert_eq!(ps[0].file_a, "new"),
        StartupPlan::OddCount(_) => panic!("two counters expected"),
    }
}

#[test]
fn watcher_pairs_neighbouring_counters() {
    let mut st = WatcherState::new(ProcessedPairs::new());
    assert!(st.on_new_file(4884, "doc00488420260310094018.pdf".to_string()).is_none());
    let job = st.on_new_file(4883, "doc00488320260310093843.pdf".to_string()).unwrap();
    assert_eq!((job.counter_a, job.counter_b), (4883, 4884));
    assert_eq!(
        (job.file_a.as_str(), job.file_b.as_str()),
        ("doc00488320260310093843.pdf", "doc00488420260310094018.pdf")
    );
    assert!(st.nothing_waiting());
}

#[test]
fn watcher_keeps_unrelated_files_waiting() {
    let mut st = WatcherState::new(ProcessedPairs::new());
    assert!(st.on_new_file(10, "doc000010.pdf".to_string()).is_none());
    assert!(st.on_new_file(20, "doc000020.pdf".to_string()).is_none());
    assert_eq!(st.waiting_path(10).map(|s| s.as_str()), Some("doc000010.pdf"));
    assert_eq!(st.waiting_path(20).map(|s| s.as_str()), Some("doc000020.pdf"));
    let job = st.on_new_file(11, "doc000011.pdf".to_string()).unwrap();
    assert_eq!((job.counter_a, job.counter_b), (10, 11));
    assert_eq!(job.file_a, "doc000010.pdf");
    assert_eq!(st.waiting_path(10), None);
    assert!(!st.nothing_waiting());
}

#[test]
fn watcher_ignores_processed_pairs() {
    let mut processed = ProcessedPairs::new();
    processed.insert(5, 6);
    let mut st = WatcherState::new(processed);
    assert!(st.on_new_file(5, "doc000005.pdf".to_string()).is_none());
    assert!(st.on_new_file(6, "doc000006.pdf".to_string()).is_none());
    assert!(st.nothing_waiting());
    assert!(!st.is_done(7, 8));
    st.on_pair_done(7, 8);
    assert!(st.is_done(7, 8));
}

#[test]
fn watcher_reads_counters_from_paths() {
    let mut st = WatcherState::new(ProcessedPairs::new());
    assert!(st.on_new_path("/in/doc00488420260310094018.pdf".to_string()).unwrap().is_none());
    assert_eq!(st.waiting_path(4884).map(|s| s.as_str()), Some("/in/doc00488420260310094018.pdf"));
    let job = st.on_new_path("/in/doc00488320260310093843.pdf".to_string()).unwrap().unwrap();
    assert_eq!((job.counter_a, job.counter_b), (4883, 4884));
    assert_eq!(job.file_a, "/in/doc00488320260310093843.pdf");
    assert_eq!(job.file_b, "/in/doc00488420260310094018.pdf");
    assert!(st.nothing_waiting());
}

#[test]
fn watcher_skips_paths_without_a_counter() {
    let mut st = WatcherState::new(ProcessedPairs::new());
    assert!(st.on_new_path("/in/doc00000520260101.pdf".to_string()).unwrap().is_none());
    assert_eq!(
        st.on_new_path("/in/doc1.pdf".to_string()).err(),
        Some(ProcessorError::FilenameParseError {
            filename: "doc1.pdf".to_string(),
            reason: "filename too short (need ≥9 chars, got 8)".to_string(),
        })
    );
    // a sign is not a digit
    assert!(st.on_new_path("/in/doc+00006x.pdf".to_string()).is_err());
    assert!(st.waiting_path(5).is_some());
    assert!(st.waiting_path(6).is_none());
}

#[test]
fn watcher_takes_created_or_renamed_scan_files() {
    assert!(wants_event(FileEventKind::Create, "/in/doc00488320260310093843.pdf"));
    assert!(wants_event(FileEventKind::Rename, "/in/doc00488320260310093843.PDF"));
    assert!(!wants_event(FileEventKind::Other, "/in/doc00488320260310093843.pdf"));
    assert!(!wants_event(FileEventKind::Create, "/in/notes.txt"));
}
