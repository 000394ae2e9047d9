use scribe::{ErrorType, ScribeMetrics};

#[test]
fn test_metrics_new() {
    let metrics = ScribeMetrics::new();
    let snapshot = metrics.snapshot();

    assert_eq!(snapshot.writes_count, 0);
    assert_eq!(snapshot.writes_failed, 0);
    assert_eq!(snapshot.bytes_written, 0);
}

#[test]
fn test_record_write() {
    let mut metrics = ScribeMetrics::new();

    metrics.record_write(100);
    metrics.record_write(200);

    let snapshot = metrics.snapshot();
    assert_eq!(snapshot.writes_count, 2);
    assert_eq!(snapshot.bytes_written, 300);
}

#[test]
fn test_record_errors() {
    let mut metrics = ScribeMetrics::new();

    metrics.record_error(ErrorType::BufferFull);
    metrics.record_error(ErrorType::BufferFull);
    metrics.record_error(ErrorType::Compression);

    let snapshot = metrics.snapshot();
    assert_eq!(snapshot.buffer_full_count, 2);
    assert_eq!(snapshot.compression_errors, 1);
}

#[test]
fn test_record_flush() {
    let mut metrics = ScribeMetrics::new();

    metrics.record_flush();
    metrics.record_flush();

    let snapshot = metrics.snapshot();
    assert_eq!(snapshot.flush_count, 2);
}

#[test]
fn test_record_timing() {
    let mut metrics = ScribeMetrics::new();

    metrics.record_compression_time(1000);
    metrics.record_encryption_time(2000);
    metrics.record_io_time(3000);

    let snapshot = metrics.snapshot();
    assert_eq!(snapshot.compression_time_us, 1000);
    assert_eq!(snapshot.encryption_time_us, 2000);
    assert_eq!(snapshot.io_time_us, 3000);
}

#[test]
fn test_record_cleanup() {
    let mut metrics = ScribeMetrics::new();

    metrics.record_cleanup(5, 10240);
    metrics.record_cleanup(3, 5120);

    let snapshot = metrics.snapshot();
    assert_eq!(snapshot.cleanup_count, 2);
    assert_eq!(snapshot.files_deleted, 8);
    assert_eq!(snapshot.bytes_freed, 15360);
}

#[test]
fn test_reset() {
    let mut metrics = ScribeMetrics::new();

    metrics.record_write(100);
    metrics.record_flush();

    let snapshot = metrics.snapshot();
    assert_eq!(snapshot.writes_count, 1);
    assert_eq!(snapshot.flush_count, 1);

    metrics.reset();

    let snapshot = metrics.snapshot();
    assert_eq!(snapshot.writes_count, 0);
    assert_eq!(snapshot.flush_count, 0);
    assert_eq!(snapshot.bytes_written, 0);
}

#[test]
fn test_metrics_record_write() {
    let mut metrics = ScribeMetrics::new();

    metrics.record_write(1024);
    metrics.record_write(2048);
    metrics.record_write(512);

    let snapshot = metrics.snapshot();

    assert_eq!(snapshot.writes_count, 3);
    assert_eq!(snapshot.bytes_written, 3584);
    assert_eq!(snapshot.writes_failed, 0);
}

#[test]
fn test_metrics_record_errors() {
    let mut metrics = ScribeMetrics::new();

    metrics.record_error(ErrorType::BufferFull);
    metrics.record_error(ErrorType::BufferFull);
    metrics.record_error(ErrorType::Compression);
    metrics.record_error(ErrorType::Encryption);
    metrics.record_error(ErrorType::DiskFull);
    metrics.record_error(ErrorType::WriteFailed);

    let snapshot = metrics.snapshot();

    assert_eq!(snapshot.buffer_full_count, 2);
    assert_eq!(snapshot.compression_errors, 1);
    assert_eq!(snapshot.encryption_errors, 1);
    assert_eq!(snapshot.disk_full_count, 1);
    assert_eq!(snapshot.writes_failed, 1);
}

#[test]
fn test_metrics_record_flush() {
    let mut metrics = ScribeMetrics::new();

    for _ in 0..5 {
        metrics.record_flush();
    }

    let snapshot = metrics.snapshot();
    assert_eq!(snapshot.flush_count, 5);
}

#[test]
fn test_metrics_record_worker_wakeup() {
    let mut metrics = ScribeMetrics::new();

    for _ in 0..10 {
        metrics.record_worker_wakeup();
    }

    let snapshot = metrics.snapshot();
    assert_eq!(snapshot.worker_wakeups, 10);
}

#[test]
fn test_metrics_record_timing() {
    let mut metrics = ScribeMetrics::new();

    metrics.record_compression_time(1000);
    metrics.record_compression_time(1500);
    metrics.record_compression_time(2000);

    metrics.record_encryption_time(500);
    metrics.record_encryption_time(800);

    metrics.record_io_time(5000);
    metrics.record_io_time(6000);

    let snapshot = metrics.snapshot();

    assert_eq!(snapshot.compression_time_us, 4500);
    assert_eq!(snapshot.encryption_time_us, 1300);
    assert_eq!(snapshot.io_time_us, 11000);
}

#[test]
fn test_metrics_record_cleanup() {
    let mut metrics = ScribeMetrics::new();

    metrics.record_cleanup(5, 10240);
    metrics.record_cleanup(3, 5120);
    metrics.record_cleanup(2, 2048);

    let snapshot = metrics.snapshot();

    assert_eq!(snapshot.cleanup_count, 3);
    assert_eq!(snapshot.files_deleted, 10);
    assert_eq!(snapshot.bytes_freed, 17408);
}

#[test]
fn test_metrics_snapshot() {
    let mut metrics = ScribeMetrics::new();

    metrics.record_write(1000);
    metrics.record_write(2000);
    metrics.record_flush();
    metrics.record_error(ErrorType::BufferFull);

    let snapshot1 = metrics.snapshot();
    let snapshot2 = metrics.snapshot();

    // 快照应该反映相同的状态
    assert_eq!(snapshot1.writes_count, snapshot2.writes_count);
    assert_eq!(snapshot1.bytes_written, snapshot2.bytes_written);
    assert_eq!(snapshot1.flush_count, snapshot2.flush_count);
    assert_eq!(snapshot1.buffer_full_count, snapshot2.buffer_full_count);
}

#[test]
fn metrics_test_test_metrics_reset() {
    let mut metrics = ScribeMetrics::new();

    // 记录一些指标
    metrics.record_write(1000);
    metrics.record_write(2000);
    metrics.record_flush();
    metrics.record_error(ErrorType::Compression);
    metrics.record_cleanup(5, 10240);
    metrics.record_compression_time(1000);
    metrics.record_encryption_time(500);
    metrics.record_io_time(3000);

    let snapshot = metrics.snapshot();
    assert_eq!(snapshot.writes_count, 2);
    assert_eq!(snapshot.bytes_written, 3000);
    assert!(snapshot.compression_time_us > 0);

    // 重置所有指标
    metrics.reset();

    let snapshot_after = metrics.snapshot();
    assert_eq!(snapshot_after.writes_count, 0);
    assert_eq!(snapshot_after.writes_failed, 0);
    assert_eq!(snapshot_after.bytes_written, 0);
    assert_eq!(snapshot_after.flush_count, 0);
    assert_eq!(snapshot_after.worker_wakeups, 0);
    assert_eq!(snapshot_after.compression_time_us, 0);
    assert_eq!(snapshot_after.encryption_time_us, 0);
    assert_eq!(snapshot_after.io_time_us, 0);
    assert_eq!(snapshot_after.buffer_full_count, 0);
    assert_eq!(snapshot_after.disk_full_count, 0);
    assert_eq!(snapshot_after.compression_errors, 0);
    assert_eq!(snapshot_after.encryption_errors, 0);
    assert_eq!(snapshot_after.cleanup_count, 0);
    assert_eq!(snapshot_after.files_deleted, 0);
    assert_eq!(snapshot_after.bytes_freed, 0);
}

#[test]
fn test_metrics_record_write_failed() {
    let mut metrics = ScribeMetrics::new();

    metrics.record_write_failed();
    metrics.record_write_failed();
    metrics.record_write_failed();

    let snapshot = metrics.snapshot();
    assert_eq!(snapshot.writes_failed, 3);
}

#[test]
fn test_metrics_all_error_types() {
    let mut metrics = ScribeMetrics::new();

    metrics.record_error(ErrorType::BufferFull);
    metrics.record_error(ErrorType::DiskFull);
    metrics.record_error(ErrorType::Compression);
    metrics.record_error(ErrorType::Encryption);
    metrics.record_error(ErrorType::WriteFailed);

    let snapshot = metrics.snapshot();

    assert_eq!(snapshot.buffer_full_count, 1);
    assert_eq!(snapshot.disk_full_count, 1);
    assert_eq!(snapshot.compression_errors, 1);
    assert_eq!(snapshot.encryption_errors, 1);
    assert_eq!(snapshot.writes_failed, 1);
}

#[test]
fn test_metrics_default_trait() {
    let metrics = ScribeMetrics::default();
    let snapshot = metrics.snapshot();

    assert_eq!(snapshot.writes_count, 0);
    assert_eq!(snapshot.bytes_written, 0);
}

#[test]
fn test_e2e_metrics_reset_cycle() {
    let mut metrics = ScribeMetrics::new();

    for _ in 0..10 {
        metrics.record_write(1000);
    }
    metrics.record_flush();

    let snapshot1 = metrics.snapshot();
    assert_eq!(snapshot1.writes_count, 10);
    assert_eq!(snapshot1.flush_count, 1);

    metrics.reset();

    let snapshot_reset = metrics.snapshot();
    assert_eq!(snapshot_reset.writes_count, 0);
    assert_eq!(snapshot_reset.flush_count, 0);

    for _ in 0..5 {
        metrics.record_write(500);
    }
    metrics.record_flush();
    metrics.record_flush();

    let snapshot2 = metrics.snapshot();
    assert_eq!(snapshot2.writes_count, 5);
    assert_eq!(snapshot2.flush_count, 2);
}

#[test]
fn counters_wrap_around() {
    let mut metrics = ScribeMetrics::new();
    metrics.record_write(u64::MAX);
    metrics.record_write(2);
    let snapshot = metrics.snapshot();
    assert_eq!(snapshot.bytes_written, 1);
    assert_eq!(snapshot.writes_count, 2);
}
