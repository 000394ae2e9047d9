use scribe::pipeline::{Fallback, LogBatch, Pipeline, PipelineStage};
use scribe::{Result, ScribeError};
struct TestStage {
    name: String,
    should_fail: bool,
    fallback: Option<Fallback>,
}

impl TestStage {
    fn new(name: &str) -> Self {
        Self {
            name: name.to_string(),
            should_fail: false,
            fallback: None,
        }
    }

    fn with_failure(mut self) -> Self {
        self.should_fail = true;
        self
    }

    fn with_fallback(mut self, fallback: Fallback) -> Self {
        self.fallback = Some(fallback);
        self
    }
}

impl PipelineStage for TestStage {
    fn name(&self) -> &str {
        &self.name
    }

    fn process(&self, data: LogBatch) -> Result<LogBatch> {
        if self.should_fail {
            Err(ScribeError::Mmap("Test error".to_string()))
        } else {
            // Append stage name to data to track processing order
            let mut new_data = data.data.clone();
            new_data.extend(self.name.as_bytes());
            Ok(LogBatch::new(new_data))
        }
    }

    fn on_error(&self, _data: LogBatch, _error: ScribeError) -> Fallback {
        if let Some(ref fallback) = self.fallback {
            match fallback {
                Fallback::Abort => Fallback::Abort,
                Fallback::Skip => Fallback::Skip,
                Fallback::Continue => Fallback::Continue,
            }
        } else {
            Fallback::Skip
        }
    }
}

// 1. Pipeline::new() 创建空 Pipeline
#[test]
fn test_pipeline_new() {
    let pipeline = Pipeline::new();
    assert_eq!(pipeline.stage_count(), 0);
}

// 2. Pipeline::add_stage() 添加 Stage
#[test]
fn test_pipeline_add_stage() {
    let pipeline = Pipeline::new()
        .add_stage(Box::new(TestStage::new("stage1")))
        .add_stage(Box::new(TestStage::new("stage2")))
        .add_stage(Box::new(TestStage::new("stage3")));

    assert_eq!(pipeline.stage_count(), 3);
    assert_eq!(pipeline.stage_name(0), "stage1");
    assert_eq!(pipeline.stage_name(1), "stage2");
    assert_eq!(pipeline.stage_name(2), "stage3");
}

// 3. Pipeline 空 Stage 列表处理
#[test]
fn test_pipeline_empty_stages() {
    let pipeline = Pipeline::new();
    let batch = LogBatch::new(vec![1, 2, 3, 4]);
    let result = pipeline.process(batch).unwrap();
    assert_eq!(result.data, vec![1, 2, 3, 4]);
}

// 4. Pipeline 单个 Stage 处理
#[test]
fn test_pipeline_single_stage() {
    let pipeline = Pipeline::new().add_stage(Box::new(TestStage::new("stage1")));

    let batch = LogBatch::new(vec![1, 2, 3]);
    let result = pipeline.process(batch).unwrap();

    // Original data + "stage1"
    let expected = vec![1, 2, 3, 115, 116, 97, 103, 101, 49]; // [1,2,3] + "stage1" in bytes
    assert_eq!(result.data, expected);
}

// 5. Pipeline 多个 Stage 串行处理
#[test]
fn test_pipeline_multiple_stages_serial() {
    let pipeline = Pipeline::new()
        .add_stage(Box::new(TestStage::new("A")))
        .add_stage(Box::new(TestStage::new("B")))
        .add_stage(Box::new(TestStage::new("C")));

    let batch = LogBatch::new(vec![1]);
    let result = pipeline.process(batch).unwrap();

    // Original data + "A" + "B" + "C"
    let expected = vec![1, 65, 66, 67]; // [1] + "A" + "B" + "C" in bytes
    assert_eq!(result.data, expected);
}

// 6. Fallback::Abort 测试
#[test]
fn test_fallback_abort() {
    let pipeline = Pipeline::new()
        .add_stage(Box::new(TestStage::new("stage1")))
        .add_stage(Box::new(
            TestStage::new("stage2")
                .with_failure()
                .with_fallback(Fallback::Abort),
        ))
        .add_stage(Box::new(TestStage::new("stage3")));

    let batch = LogBatch::new(vec![1, 2, 3]);
    let result = pipeline.process(batch);

    assert!(result.is_err());
    if let Err(ScribeError::Mmap(msg)) = result {
        assert_eq!(msg, "Pipeline aborted");
    } else {
        panic!("Expected Pipeline aborted error");
    }
}

// 7. Fallback::Skip 测试
#[test]
fn test_fallback_skip() {
    let pipeline = Pipeline::new()
        .add_stage(Box::new(TestStage::new("stage1")))
        .add_stage(Box::new(
            TestStage::new("stage2")
                .with_failure()
                .with_fallback(Fallback::Skip),
        ))
        .add_stage(Box::new(TestStage::new("stage3")));

    let batch = LogBatch::new(vec![1]);
    let result = pipeline.process(batch).unwrap();

    // stage1 processed, stage2 skipped (failed), stage3 processed on stage1 output
    // [1] + "stage1" + "stage3"
    let expected = vec![1, 115, 116, 97, 103, 101, 49, 115, 116, 97, 103, 101, 51];
    assert_eq!(result.data, expected);
}

// 8. Fallback::Continue 测试
#[test]
fn test_fallback_continue() {
    let pipeline = Pipeline::new()
        .add_stage(Box::new(TestStage::new("stage1")))
        .add_stage(Box::new(
            TestStage::new("stage2")
                .with_failure()
                .with_fallback(Fallback::Continue),
        ))
        .add_stage(Box::new(TestStage::new("stage3")));

    let batch = LogBatch::new(vec![1]);
    let result = pipeline.process(batch).unwrap();

    // stage1 processed, stage2 failed but continued, stage3 processed on stage1 output
    // [1] + "stage1" + "stage3"
    let expected = vec![1, 115, 116, 97, 103, 101, 49, 115, 116, 97, 103, 101, 51];
    assert_eq!(result.data, expected);
}

// 9. Stage 错误传播测试
#[test]
fn test_stage_error_propagation() {
    let pipeline = Pipeline::new()
        .add_stage(Box::new(TestStage::new("stage1")))
        .add_stage(Box::new(
            TestStage::new("failing_stage")
                .with_failure()
                .with_fallback(Fallback::Abort),
        ))
        .add_stage(Box::new(TestStage::new("stage3")));

    let batch = LogBatch::new(vec![1, 2, 3]);
    let result = pipeline.process(batch);

    // Error should propagate and abort pipeline
    assert!(result.is_err());
}

// 10. LogBatch::new() 测试
#[test]
fn test_logbatch_new() {
    let data = vec![1, 2, 3, 4, 5];
    let batch = LogBatch::new(data.clone());
    assert_eq!(batch.data, data);
}

// 11. LogBatch::empty() 测试
#[test]
fn test_logbatch_empty() {
    let batch = LogBatch::empty();
    assert_eq!(batch.data.len(), 0);
    assert!(batch.data.is_empty());
}

// 12. LogBatch::size() 测试
#[test]
fn test_logbatch_size() {
    let batch_empty = LogBatch::empty();
    assert_eq!(batch_empty.size(), 0);

    let batch_small = LogBatch::new(vec![1, 2, 3]);
    assert_eq!(batch_small.size(), 3);

    let batch_large = LogBatch::new(vec![0; 1024]);
    assert_eq!(batch_large.size(), 1024);
}

// Additional test: existing test compatibility
#[test]
fn test_pipeline_success() {
    let pipeline = Pipeline::new()
        .add_stage(Box::new(TestStage::new("stage1")))
        .add_stage(Box::new(TestStage::new("stage2")));

    let batch = LogBatch::new(vec![1, 2, 3]);
    let result = pipeline.process(batch);
    assert!(result.is_ok());
}

#[test]
fn test_pipeline_skip_on_error() {
    let pipeline = Pipeline::new()
        .add_stage(Box::new(TestStage::new("stage1").with_failure()))
        .add_stage(Box::new(TestStage::new("stage2")));

    let batch = LogBatch::new(vec![1, 2, 3]);
    let result = pipeline.process(batch);
    assert!(result.is_ok());
}

#[test]
fn pipeline_names_its_stages_in_order() {
    let pipeline = Pipeline::new()
        .add_stage(Box::new(scribe::stages::CompressStage::zstd(3)))
        .add_stage(Box::new(scribe::stages::EncryptStage::new(&[0u8; 32])));
    assert_eq!(pipeline.stage_count(), 2);
    assert_eq!(pipeline.stage_name(0), "compress");
    assert_eq!(pipeline.stage_name(1), "encrypt");
}
