use scribe::storage::cleanup::{
    age_days_from_elapsed, age_days_from_secs, priority_score_of, CleanupCandidate, CleanupPolicy, CleanupReport, CleanupRun, LogFile,
};
use scribe::LogLevel;
use std::collections::HashMap;
use std::path::PathBuf;
use std::time::{Duration, SystemTime};

/// Runs a cleanup over `files`, deleting through `delete` (which reports
/// whether the deletion worked), as the engine's cleanup driver does.
fn run_cleanup(policy: &CleanupPolicy, files: &[LogFile], delete: impl Fn(&str) -> bool) -> CleanupReport {
    let candidates: Vec<CleanupCandidate> = files
        .iter()
        .map(|f| CleanupCandidate {
            path: f.path.to_string_lossy().to_string(),
            size: f.size,
            age_days: f.age_days(),
            min_level: f.min_level,
        })
        .collect();
    let paths: Vec<String> = candidates.iter().map(|c| c.path.clone()).collect();
    let target_size = (policy.max_total_size as f32 * 0.8) as usize;
    let mut run = CleanupRun::new(policy, candidates, target_size);
    while let Some(i) = run.next() {
        let ok = delete(&paths[i]);
        run.record(ok);
    }
    run.finish()
}

fn days_ago(days: u64) -> SystemTime {
    SystemTime::now() - Duration::from_secs(days * 86400)
}

fn policy(max_total_size: usize, max_file_size: usize, retention_days: u32) -> CleanupPolicy {
    CleanupPolicy { max_total_size, max_file_size, retention_days, level_retention: HashMap::new() }
}

fn candidate(path: &str, size: usize, age_days: u32, min_level: LogLevel) -> CleanupCandidate {
    CleanupCandidate { path: path.to_string(), size, age_days, min_level }
}

#[test]
fn test_cleanup_policy_default() {
    let policy = CleanupPolicy::default();

    assert_eq!(policy.max_total_size, 50 * 1024 * 1024);
    assert_eq!(policy.max_file_size, 10 * 1024 * 1024);
    assert_eq!(policy.retention_days, 7);

    assert_eq!(*policy.level_retention.get(&LogLevel::Debug.to_u8()).unwrap(), 1);
    assert_eq!(*policy.level_retention.get(&LogLevel::Info.to_u8()).unwrap(), 3);
    assert_eq!(*policy.level_retention.get(&LogLevel::Warn.to_u8()).unwrap(), 7);
    assert_eq!(*policy.level_retention.get(&LogLevel::Error.to_u8()).unwrap(), 30);
}

#[test]
fn test_cleanup_empty_directory() {
    let policy = CleanupPolicy::default();
    let files: Vec<LogFile> = vec![];

    let report = run_cleanup(&policy, &files, |_| true);

    assert_eq!(report.files_deleted, 0);
    assert_eq!(report.bytes_freed, 0);
    assert_eq!(report.deleted_files.len(), 0);
}

#[test]
fn test_cleanup_file_deletion_failure() {
    let policy = CleanupPolicy::default();

    let files = vec![LogFile {
        path: PathBuf::from("/nonexistent/path/file.log"),
        size: 1024,
        created_at: days_ago(30),
        min_level: LogLevel::Debug,
    }];

    let report = run_cleanup(&policy, &files, |_| false);

    assert_eq!(report.files_deleted, 0);
    assert_eq!(report.bytes_freed, 0);
}

#[test]
fn test_priority_score_different_levels() {
    let policy = CleanupPolicy::default();
    let base_time = days_ago(5);
    let file = |name: &str, level: LogLevel| LogFile {
        path: PathBuf::from(name),
        size: 1024,
        created_at: base_time,
        min_level: level,
    };

    let debug_file = file("debug.log", LogLevel::Debug);
    let verbose_file = file("verbose.log", LogLevel::Verbose);
    let info_file = file("info.log", LogLevel::Info);
    let warn_file = file("warn.log", LogLevel::Warn);
    let error_file = file("error.log", LogLevel::Error);

    assert!(policy.priority_score(&debug_file) > policy.priority_score(&verbose_file));
    assert!(policy.priority_score(&verbose_file) > policy.priority_score(&info_file));
    assert!(policy.priority_score(&info_file) > policy.priority_score(&warn_file));
    assert!(policy.priority_score(&warn_file) > policy.priority_score(&error_file));
}

#[test]
fn test_priority_score_age_impact() {
    let policy = CleanupPolicy::default();

    let old_file = LogFile {
        path: PathBuf::from("old.log"),
        size: 1024,
        created_at: days_ago(10),
        min_level: LogLevel::Info,
    };

    let new_file = LogFile {
        path: PathBuf::from("new.log"),
        size: 1024,
        created_at: days_ago(1),
        min_level: LogLevel::Info,
    };

    assert!(policy.priority_score(&old_file) > policy.priority_score(&new_file));
}

#[test]
fn test_priority_score_size_impact() {
    let policy = CleanupPolicy::default();

    let large_file = LogFile {
        path: PathBuf::from("large.log"),
        size: 10 * 1024 * 1024,
        created_at: SystemTime::now(),
        min_level: LogLevel::Info,
    };

    let small_file = LogFile {
        path: PathBuf::from("small.log"),
        size: 1024,
        created_at: SystemTime::now(),
        min_level: LogLevel::Info,
    };

    assert!(policy.priority_score(&large_file) > policy.priority_score(&small_file));
}

#[test]
fn test_should_delete_by_time_exactly_at_retention() {
    let policy = policy(100 * 1024 * 1024, 10 * 1024 * 1024, 7);

    let file_exactly_7_days = LogFile {
        path: PathBuf::from("exact.log"),
        size: 1024,
        created_at: days_ago(7),
        min_level: LogLevel::Info,
    };

    assert!(!policy.should_delete_by_time(&file_exactly_7_days));
}

#[test]
fn test_should_delete_by_time_just_over_retention() {
    let policy = policy(100 * 1024 * 1024, 10 * 1024 * 1024, 7);

    let file_over_7_days = LogFile {
        path: PathBuf::from("over.log"),
        size: 1024,
        created_at: days_ago(8),
        min_level: LogLevel::Info,
    };

    assert!(policy.should_delete_by_time(&file_over_7_days));
}

#[test]
fn test_should_delete_by_time_with_level_override() {
    let mut level_retention = HashMap::new();
    level_retention.insert(LogLevel::Debug.to_u8(), 1);
    level_retention.insert(LogLevel::Error.to_u8(), 30);

    let policy = CleanupPolicy {
        max_total_size: 100 * 1024 * 1024,
        max_file_size: 10 * 1024 * 1024,
        retention_days: 7,
        level_retention,
    };

    let debug_file_2_days = LogFile {
        path: PathBuf::from("debug.log"),
        size: 1024,
        created_at: days_ago(2),
        min_level: LogLevel::Debug,
    };

    let error_file_10_days = LogFile {
        path: PathBuf::from("error.log"),
        size: 1024,
        created_at: days_ago(10),
        min_level: LogLevel::Error,
    };

    assert!(policy.should_delete_by_time(&debug_file_2_days));
    assert!(!policy.should_delete_by_time(&error_file_10_days));
}

#[test]
fn test_should_delete_by_time_fresh_file() {
    let policy = CleanupPolicy::default();

    let fresh_file = LogFile {
        path: PathBuf::from("fresh.log"),
        size: 1024,
        created_at: SystemTime::now(),
        min_level: LogLevel::Debug,
    };

    assert!(!policy.should_delete_by_time(&fresh_file));
}

#[test]
fn test_cleanup_report_no_deletions() {
    let policy = policy(1000 * 1024 * 1024, 100 * 1024 * 1024, 365);

    let files = vec![LogFile {
        path: PathBuf::from("keep.log"),
        size: 1024,
        created_at: SystemTime::now(),
        min_level: LogLevel::Info,
    }];

    let report = run_cleanup(&policy, &files, |_| true);

    assert_eq!(report.files_deleted, 0);
    assert_eq!(report.bytes_freed, 0);
    assert_eq!(report.deleted_files.len(), 0);
}

#[test]
fn test_log_file_age_days() {
    let file_today = LogFile {
        path: PathBuf::from("today.log"),
        size: 1024,
        created_at: SystemTime::now(),
        min_level: LogLevel::Info,
    };

    let file_5_days = LogFile {
        path: PathBuf::from("5days.log"),
        size: 1024,
        created_at: days_ago(5),
        min_level: LogLevel::Info,
    };

    assert_eq!(file_today.age_days(), 0);
    assert_eq!(file_5_days.age_days(), 5);
}

#[test]
fn cleanup_deletes_expired_files_first() {
    let policy = policy(100, 50, 1);
    let files = vec![
        LogFile { path: PathBuf::from("file1.log"), size: 14, created_at: days_ago(3), min_level: LogLevel::Debug },
        LogFile { path: PathBuf::from("file2.log"), size: 14, created_at: days_ago(3), min_level: LogLevel::Error },
    ];

    let report = run_cleanup(&policy, &files, |_| true);

    assert_eq!(report.files_deleted, 2);
    assert_eq!(report.bytes_freed, 28);
    assert_eq!(report.deleted_files, vec!["file1.log".to_string(), "file2.log".to_string()]);
}

#[test]
fn cleanup_by_time_keeps_fresh_files() {
    let policy = CleanupPolicy::default();
    let files = vec![
        LogFile { path: PathBuf::from("old.log"), size: 1024, created_at: days_ago(30), min_level: LogLevel::Debug },
        LogFile { path: PathBuf::from("new.log"), size: 1024, created_at: SystemTime::now(), min_level: LogLevel::Debug },
    ];

    let report = run_cleanup(&policy, &files, |_| true);

    assert_eq!(report.files_deleted, 1);
    assert_eq!(report.bytes_freed, 1024);
    assert_eq!(report.deleted_files, vec!["old.log".to_string()]);
}

#[test]
fn cleanup_by_size_deletes_the_highest_score_first() {
    let policy = policy(100, 50, 365);
    let files = vec![
        LogFile { path: PathBuf::from("file1.log"), size: 80, created_at: days_ago(10), min_level: LogLevel::Debug },
        LogFile { path: PathBuf::from("file2.log"), size: 80, created_at: days_ago(1), min_level: LogLevel::Debug },
    ];

    let report = run_cleanup(&policy, &files, |_| true);

    // 160 bytes exceed 100: the old debug file goes first, and 80 bytes left meet the target of 80.
    assert_eq!(report.files_deleted, 1);
    assert_eq!(report.bytes_freed, 80);
    assert_eq!(report.deleted_files, vec!["file1.log".to_string()]);
}

#[test]
fn cleanup_mixed_strategy_deletes_by_age_then_by_size() {
    let policy = policy(50, 50, 2);
    let files = vec![
        LogFile { path: PathBuf::from("file1.log"), size: 30, created_at: days_ago(5), min_level: LogLevel::Debug },
        LogFile { path: PathBuf::from("file2.log"), size: 30, created_at: SystemTime::now(), min_level: LogLevel::Info },
        LogFile { path: PathBuf::from("file3.log"), size: 30, created_at: SystemTime::now(), min_level: LogLevel::Error },
    ];

    let report = run_cleanup(&policy, &files, |_| true);

    assert_eq!(report.deleted_files, vec!["file1.log".to_string(), "file2.log".to_string()]);
    assert_eq!(report.files_deleted, 2);
    assert_eq!(report.bytes_freed, 60);
}

#[test]
fn cleanup_report_lists_every_deleted_path() {
    let policy = policy(1, 1, 0);
    let files = vec![
        LogFile { path: PathBuf::from("report1.log"), size: 5, created_at: days_ago(2), min_level: LogLevel::Debug },
        LogFile { path: PathBuf::from("report2.log"), size: 5, created_at: days_ago(1), min_level: LogLevel::Info },
    ];

    let report = run_cleanup(&policy, &files, |_| true);

    assert_eq!(report.files_deleted, 2);
    assert_eq!(report.bytes_freed, 10);
    assert_eq!(report.deleted_files.len(), report.files_deleted);
    for deleted in &report.deleted_files {
        assert!(deleted.contains("report") && deleted.contains(".log"));
    }
}

#[test]
fn size_phase_skips_paths_already_deleted_and_counts_failures() {
    let policy = policy(100, 100, 3);
    let files = vec![
        candidate("a.log", 60, 9, LogLevel::Info),
        candidate("a.log", 60, 0, LogLevel::Info),
        candidate("b.log", 60, 0, LogLevel::Debug),
        candidate("c.log", 60, 0, LogLevel::Warn),
    ];
    let mut run = CleanupRun::new(&policy, files, 80);
    // Phase one: only the first file is past its retention.
    assert_eq!(run.next(), Some(0));
    run.record(true);
    // Phase two: the second file shares the deleted path; b and c hold 120 > 100 bytes.
    // b (debug, score 1000) goes first; its deletion fails, so c (warn, 100) follows.
    assert_eq!(run.next(), Some(2));
    run.record(false);
    assert_eq!(run.next(), Some(3));
    run.record(true);
    // 60 bytes are left, at most the target of 80.
    assert_eq!(run.next(), None);
    let report = run.finish();
    assert_eq!(report.files_deleted, 2);
    assert_eq!(report.bytes_freed, 120);
    assert_eq!(report.deleted_files, vec!["a.log".to_string(), "c.log".to_string()]);
}

#[test]
fn size_order_breaks_ties_by_position() {
    let policy = policy(10, 10, 100);
    let files = vec![
        candidate("x.log", 8, 1, LogLevel::Error),
        candidate("y.log", 8, 1, LogLevel::Error),
        candidate("z.log", 8, 2, LogLevel::Error),
    ];
    let mut run = CleanupRun::new(&policy, files, 0);
    let mut order = Vec::new();
    while let Some(i) = run.next() {
        order.push(i);
        run.record(true);
    }
    assert_eq!(order, vec![2, 0, 1]);
    assert_eq!(run.finish().bytes_freed, 24);
}

#[test]
fn priority_and_age_formulas() {
    assert_eq!(priority_score_of(3, 4096, LogLevel::Info), 300 + 4 + 500);
    assert_eq!(priority_score_of(0, 1023, LogLevel::Error), 0);
    assert_eq!(priority_score_of(1, 0, LogLevel::Verbose), 1000);
    assert_eq!(age_days_from_secs(86399), 0);
    assert_eq!(age_days_from_secs(86400 * 5 + 7), 5);
    assert_eq!(age_days_from_secs(u64::MAX), ((u64::MAX / 86400) as u32));
}

#[test]
fn retention_falls_back_to_the_default() {
    let policy = CleanupPolicy::default();
    assert_eq!(policy.retention_for(LogLevel::Verbose), 7);
    assert_eq!(policy.retention_for(LogLevel::Debug), 1);
    assert_eq!(policy.retention_for(LogLevel::Error), 30);
    assert!(policy.is_expired(2, LogLevel::Debug));
    assert!(!policy.is_expired(1, LogLevel::Debug));
}

#[test]
fn total_size_detects_overflow() {
    let files = vec![candidate("a", 10, 0, LogLevel::Info), candidate("b", 32, 0, LogLevel::Info)];
    assert_eq!(scribe::storage::cleanup::total_size(&files), Some(42));
    let huge = vec![candidate("a", usize::MAX, 0, LogLevel::Info), candidate("b", 1, 0, LogLevel::Info)];
    assert_eq!(scribe::storage::cleanup::total_size(&huge), None);
}

#[test]
fn report_lists_one_input_path_per_deleted_file() {
    let mut policy = CleanupPolicy::default();
    policy.retention_days = 1;
    let now = SystemTime::now();
    let old = now - Duration::from_secs(5 * 86400);
    let files = vec![
        LogFile { path: PathBuf::from("/tmp/x/a.log"), size: 10, created_at: old, min_level: LogLevel::Info },
        LogFile { path: PathBuf::from("/tmp/x/b.log"), size: 20, created_at: now, min_level: LogLevel::Info },
        LogFile { path: PathBuf::from("/tmp/x/c.log"), size: 30, created_at: old, min_level: LogLevel::Info },
    ];
    let report = run_cleanup(&policy, &files, |p| !p.ends_with("c.log"));
    assert_eq!(report.files_deleted, report.deleted_files.len());
    assert_eq!(report.deleted_files, vec!["/tmp/x/a.log".to_string()]);
    assert_eq!(report.bytes_freed, 10);
}

#[test]
fn age_from_elapsed_time() {
    assert_eq!(age_days_from_elapsed(None), 0);
    assert_eq!(age_days_from_elapsed(Some(0)), 0);
    assert_eq!(age_days_from_elapsed(Some(86400 * 5)), 5);
    assert_eq!(age_days_from_elapsed(Some(86400 * 5 - 1)), 4);
}

#[test]
fn a_file_from_the_future_is_zero_days_old() {
    let file = LogFile {
        path: PathBuf::from("/tmp/future.log"),
        size: 1,
        created_at: SystemTime::now() + Duration::from_secs(10 * 86400),
        min_level: LogLevel::Info,
    };
    assert_eq!(file.age_days(), 0);
}
