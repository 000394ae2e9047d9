use scribe::sink::{clear_sinks, extract_class_name, register_sink, ConsoleSink, LogSink, SinkRegistry};
use scribe::LogLevel;
use std::sync::atomic::{AtomicUsize, Ordering};
use std::sync::{Arc, Mutex};


/// 测试用的 LogSink - 记录调用次数
struct CountingTree {
    count: Arc<AtomicUsize>,
}

impl CountingTree {
    fn new(count: Arc<AtomicUsize>) -> Self {
        Self { count }
    }
}

impl LogSink for CountingTree {
    fn log(&self, _level: LogLevel, _tag: Option<&str>, _message: &str, _thread: Option<&str>) {
        self.count.fetch_add(1, Ordering::SeqCst);
    }
}

/// 测试用的 LogSink - 只记录特定级别
struct FilteringTree {
    min_level: LogLevel,
    count: Arc<AtomicUsize>,
}

impl FilteringTree {
    fn new(min_level: LogLevel, count: Arc<AtomicUsize>) -> Self {
        Self { min_level, count }
    }
}

impl LogSink for FilteringTree {
    fn log(&self, _level: LogLevel, _tag: Option<&str>, _message: &str, _thread: Option<&str>) {
        self.count.fetch_add(1, Ordering::SeqCst);
    }

    fn is_loggable(&self, level: LogLevel, _tag: Option<&str>) -> bool {
        level as u8 >= self.min_level as u8
    }
}

/// 测试用的 LogSink - 捕获日志内容
struct CapturingTree {
    logs: Arc<Mutex<Vec<CapturedLog>>>,
}

#[derive(Debug, Clone)]
struct CapturedLog {
    level: LogLevel,
    tag: Option<String>,
    message: String,
    thread: Option<String>,
}

impl CapturingTree {
    fn new(logs: Arc<Mutex<Vec<CapturedLog>>>) -> Self {
        Self { logs }
    }
}

impl LogSink for CapturingTree {
    fn log(&self, level: LogLevel, tag: Option<&str>, message: &str, thread: Option<&str>) {
        self.logs.lock().unwrap().push(CapturedLog {
            level,
            tag: tag.map(|s| s.to_string()),
            message: message.to_string(),
            thread: thread.map(|s| s.to_string()),
        });
    }
}

/// 测试用的 LogSink
struct TagFilteringTree {
    allowed_tag: String,
    count: Arc<AtomicUsize>,
}

impl TagFilteringTree {
    fn new(allowed_tag: String, count: Arc<AtomicUsize>) -> Self {
        Self { allowed_tag, count }
    }
}

impl LogSink for TagFilteringTree {
    fn log(&self, _level: LogLevel, _tag: Option<&str>, _message: &str, _thread: Option<&str>) {
        self.count.fetch_add(1, Ordering::SeqCst);
    }

    fn is_loggable(&self, _level: LogLevel, tag: Option<&str>) -> bool {
        tag == Some(self.allowed_tag.as_str())
    }
}

#[test]
fn test_forest_new() {
    let forest = SinkRegistry::new();
    assert_eq!(forest.sink_count(), 0);
}

#[test]
fn test_forest_default() {
    let forest = SinkRegistry::default();
    assert_eq!(forest.sink_count(), 0);
}

#[test]
fn test_plant_single_tree() {
    let mut forest = SinkRegistry::new();
    let count = Arc::new(AtomicUsize::new(0));

    forest.register_sink(Box::new(CountingTree::new(count.clone())));

    assert_eq!(forest.sink_count(), 1);
    assert_eq!(count.load(Ordering::SeqCst), 0);
}

#[test]
fn test_plant_multiple_trees() {
    let mut forest = SinkRegistry::new();
    let count1 = Arc::new(AtomicUsize::new(0));
    let count2 = Arc::new(AtomicUsize::new(0));

    forest.register_sink(Box::new(CountingTree::new(count1.clone())));
    forest.register_sink(Box::new(CountingTree::new(count2.clone())));

    assert_eq!(forest.sink_count(), 2);
}

#[test]
fn test_uproot_all() {
    let mut registry = SinkRegistry::new();
    let mut forest = SinkRegistry::new();
    let count = Arc::new(AtomicUsize::new(0));

    forest.register_sink(Box::new(CountingTree::new(count.clone())));
    forest.register_sink(Box::new(CountingTree::new(count.clone())));

    assert_eq!(forest.sink_count(), 2);

    forest.clear_sinks();

    assert_eq!(forest.sink_count(), 0);
}

#[test]
fn test_log_single_tree() {
    let mut forest = SinkRegistry::new();
    let count = Arc::new(AtomicUsize::new(0));

    forest.register_sink(Box::new(CountingTree::new(count.clone())));
    forest.log(LogLevel::Info, Some("test"), "test message", None);

    assert_eq!(count.load(Ordering::SeqCst), 1);
}

#[test]
fn test_log_multiple_trees() {
    let mut forest = SinkRegistry::new();
    let count1 = Arc::new(AtomicUsize::new(0));
    let count2 = Arc::new(AtomicUsize::new(0));

    forest.register_sink(Box::new(CountingTree::new(count1.clone())));
    forest.register_sink(Box::new(CountingTree::new(count2.clone())));

    forest.log(LogLevel::Info, Some("test"), "test message", None);

    assert_eq!(count1.load(Ordering::SeqCst), 1);
    assert_eq!(count2.load(Ordering::SeqCst), 1);
}

#[test]
fn test_log_multiple_times() {
    let mut forest = SinkRegistry::new();
    let count = Arc::new(AtomicUsize::new(0));

    forest.register_sink(Box::new(CountingTree::new(count.clone())));

    forest.log(LogLevel::Info, Some("test"), "message 1", None);
    forest.log(LogLevel::Debug, None, "message 2", None);
    forest.log(LogLevel::Error, Some("error"), "message 3", None);

    assert_eq!(count.load(Ordering::SeqCst), 3);
}

#[test]
fn test_filtering_tree_level() {
    let mut forest = SinkRegistry::new();
    let count = Arc::new(AtomicUsize::new(0));

    // 只记录 Warn 及以上级别
    forest.register_sink(Box::new(FilteringTree::new(LogLevel::Warn, count.clone())));

    forest.log(LogLevel::Verbose, None, "verbose", None);
    forest.log(LogLevel::Debug, None, "debug", None);
    forest.log(LogLevel::Info, None, "info", None);
    forest.log(LogLevel::Warn, None, "warn", None);
    forest.log(LogLevel::Error, None, "error", None);

    // 只有 Warn 和 Error 被记录
    assert_eq!(count.load(Ordering::SeqCst), 2);
}

#[test]
fn test_capturing_tree_content() {
    let mut forest = SinkRegistry::new();
    let logs = Arc::new(Mutex::new(Vec::new()));

    forest.register_sink(Box::new(CapturingTree::new(logs.clone())));

    forest.log(LogLevel::Info, Some("tag1"), "message 1", None);
    forest.log(LogLevel::Error, None, "message 2", None);

    let captured = logs.lock().unwrap();
    assert_eq!(captured.len(), 2);

    assert_eq!(captured[0].level, LogLevel::Info);
    assert_eq!(captured[0].tag, Some("tag1".to_string()));
    assert_eq!(captured[0].message, "message 1");

    assert_eq!(captured[1].level, LogLevel::Error);
    assert_eq!(captured[1].tag, None);
    assert_eq!(captured[1].message, "message 2");
}

#[test]
fn test_tag_filtering_tree() {
    let mut forest = SinkRegistry::new();
    let count = Arc::new(AtomicUsize::new(0));

    forest.register_sink(Box::new(TagFilteringTree::new("allowed".to_string(), count.clone())));

    forest.log(LogLevel::Info, Some("allowed"), "message 1", None);
    forest.log(LogLevel::Info, Some("blocked"), "message 2", None);
    forest.log(LogLevel::Info, None, "message 3", None);
    forest.log(LogLevel::Info, Some("allowed"), "message 4", None);

    // 只有带 "allowed" 标签的被记录
    assert_eq!(count.load(Ordering::SeqCst), 2);
}

#[test]
fn test_mixed_filtering_trees() {
    let mut forest = SinkRegistry::new();
    let count1 = Arc::new(AtomicUsize::new(0));
    let count2 = Arc::new(AtomicUsize::new(0));

    // Tree 1: 只记录 Error 及以上
    forest.register_sink(Box::new(FilteringTree::new(LogLevel::Error, count1.clone())));
    // Tree 2: 只记录 Debug 及以上
    forest.register_sink(Box::new(FilteringTree::new(LogLevel::Debug, count2.clone())));

    forest.log(LogLevel::Verbose, None, "verbose", None);
    forest.log(LogLevel::Debug, None, "debug", None);
    forest.log(LogLevel::Info, None, "info", None);
    forest.log(LogLevel::Error, None, "error", None);

    assert_eq!(count1.load(Ordering::SeqCst), 1); // 只记录 Error
    assert_eq!(count2.load(Ordering::SeqCst), 3); // 记录 Debug, Info, Error
}

#[test]
fn test_global_forest_plant() {
    let mut registry = SinkRegistry::new();
    // 清理全局状态
    clear_sinks(&mut registry);

    let count = Arc::new(AtomicUsize::new(0));
    register_sink(&mut registry, Box::new(CountingTree::new(count.clone())));

    registry.log(LogLevel::Info, None, "test", None);

    assert_eq!(count.load(Ordering::SeqCst), 1);

    // 清理
    clear_sinks(&mut registry);
}

#[test]
fn test_global_forest_uproot_all() {
    let mut registry = SinkRegistry::new();
    // 清理全局状态
    clear_sinks(&mut registry);

    let count = Arc::new(AtomicUsize::new(0));
    register_sink(&mut registry, Box::new(CountingTree::new(count.clone())));

    registry.log(LogLevel::Info, None, "test", None);
    assert_eq!(count.load(Ordering::SeqCst), 1);

    clear_sinks(&mut registry);

    registry.log(LogLevel::Info, None, "test", None);
    // 仍然是 1，因为 tree 已被移除
    assert_eq!(count.load(Ordering::SeqCst), 1);
}

#[test]
fn test_empty_forest_log() {
    let forest = SinkRegistry::new();
    // 不应该 panic
    forest.log(LogLevel::Info, None, "test", None);
}

#[test]
fn test_log_with_empty_message() {
    let mut forest = SinkRegistry::new();
    let logs = Arc::new(Mutex::new(Vec::new()));

    forest.register_sink(Box::new(CapturingTree::new(logs.clone())));
    forest.log(LogLevel::Info, None, "", None);

    let captured = logs.lock().unwrap();
    assert_eq!(captured.len(), 1);
    assert_eq!(captured[0].message, "");
}

#[test]
fn test_log_level_ordering() {
    let count = Arc::new(AtomicUsize::new(0));
    let sink = FilteringTree::new(LogLevel::Info, count.clone());

    assert!(!sink.is_loggable(LogLevel::Verbose, None));
    assert!(!sink.is_loggable(LogLevel::Debug, None));
    assert!(sink.is_loggable(LogLevel::Info, None));
    assert!(sink.is_loggable(LogLevel::Warn, None));
    assert!(sink.is_loggable(LogLevel::Error, None));
}

// ====== ConsoleSink Tests ======

#[test]
fn test_console_sink_new() {
    let sink = ConsoleSink::new();
    assert!(sink.is_loggable(LogLevel::Verbose, None));
    assert!(sink.is_loggable(LogLevel::Debug, None));
    assert!(sink.is_loggable(LogLevel::Info, None));
    assert!(sink.is_loggable(LogLevel::Warn, None));
    assert!(sink.is_loggable(LogLevel::Error, None));
}

#[test]
fn test_console_sink_default() {
    let sink = ConsoleSink::default();
    assert!(sink.is_loggable(LogLevel::Verbose, None));
}

#[test]
fn test_console_sink_with_min_level() {
    let sink = ConsoleSink::with_min_level(LogLevel::Warn);
    assert!(!sink.is_loggable(LogLevel::Verbose, None));
    assert!(!sink.is_loggable(LogLevel::Debug, None));
    assert!(!sink.is_loggable(LogLevel::Info, None));
    assert!(sink.is_loggable(LogLevel::Warn, None));
    assert!(sink.is_loggable(LogLevel::Error, None));
}

#[test]
fn test_console_sink_is_loggable_verbose() {
    let sink = ConsoleSink::with_min_level(LogLevel::Verbose);
    assert!(sink.is_loggable(LogLevel::Verbose, Some("test")));
    assert!(sink.is_loggable(LogLevel::Debug, Some("test")));
    assert!(sink.is_loggable(LogLevel::Info, Some("test")));
    assert!(sink.is_loggable(LogLevel::Warn, Some("test")));
    assert!(sink.is_loggable(LogLevel::Error, Some("test")));
}

#[test]
fn test_console_sink_is_loggable_info() {
    let sink = ConsoleSink::with_min_level(LogLevel::Info);
    assert!(!sink.is_loggable(LogLevel::Verbose, None));
    assert!(!sink.is_loggable(LogLevel::Debug, None));
    assert!(sink.is_loggable(LogLevel::Info, None));
    assert!(sink.is_loggable(LogLevel::Warn, None));
    assert!(sink.is_loggable(LogLevel::Error, None));
}

#[test]
fn test_console_sink_is_loggable_error() {
    let sink = ConsoleSink::with_min_level(LogLevel::Error);
    assert!(!sink.is_loggable(LogLevel::Verbose, None));
    assert!(!sink.is_loggable(LogLevel::Debug, None));
    assert!(!sink.is_loggable(LogLevel::Info, None));
    assert!(!sink.is_loggable(LogLevel::Warn, None));
    assert!(sink.is_loggable(LogLevel::Error, None));
}

#[test]
fn test_console_sink_log_with_explicit_tag() {
    let sink = ConsoleSink::new();
    // 不应该 panic，输出应该使用显式 tag
    sink.log(LogLevel::Info, Some("explicit_tag"), "test message", None);
}

#[test]
fn test_console_sink_log_without_tag() {
    let sink = ConsoleSink::new();
    // 不应该 panic，输出应该使用自动提取的 tag 或 "Scribe"
    sink.log(LogLevel::Info, None, "test message", None);
}

#[test]
fn test_console_sink_log_with_thread() {
    let sink = ConsoleSink::new();
    sink.log(LogLevel::Info, Some("test"), "message", Some("main"));
}

#[test]
fn test_console_sink_log_without_thread() {
    let sink = ConsoleSink::new();
    sink.log(LogLevel::Info, Some("test"), "message", None);
}

#[test]
fn test_console_sink_log_all_levels() {
    let sink = ConsoleSink::new();
    sink.log(LogLevel::Verbose, Some("test"), "verbose message", None);
    sink.log(LogLevel::Debug, Some("test"), "debug message", None);
    sink.log(LogLevel::Info, Some("test"), "info message", None);
    sink.log(LogLevel::Warn, Some("test"), "warn message", None);
    sink.log(LogLevel::Error, Some("test"), "error message", None);
}

#[test]
fn test_console_sink_log_empty_message() {
    let sink = ConsoleSink::new();
    sink.log(LogLevel::Info, Some("test"), "", None);
}

#[test]
fn test_console_sink_log_long_message() {
    let sink = ConsoleSink::new();
    let long_message = "a".repeat(10000);
    sink.log(LogLevel::Info, Some("test"), &long_message, None);
}

#[test]
fn test_console_sink_log_utf8_message() {
    let sink = ConsoleSink::new();
    sink.log(LogLevel::Info, Some("test"), "Hello 世界 🌍 Привет", None);
}

#[test]
fn test_console_sink_log_special_characters() {
    let sink = ConsoleSink::new();
    sink.log(LogLevel::Info, Some("test"), "Line1\nLine2\tTabbed", None);
}

#[test]
fn test_console_sink_filter_verbose_out() {
    let sink = ConsoleSink::with_min_level(LogLevel::Debug);
    assert!(!sink.is_loggable(LogLevel::Verbose, None));
    // 实际调用 log 会被过滤（通过 Forest 的 is_loggable）
}

#[test]
fn test_console_sink_filter_debug_out() {
    let sink = ConsoleSink::with_min_level(LogLevel::Info);
    assert!(!sink.is_loggable(LogLevel::Debug, None));
}

#[test]
fn test_console_sink_in_forest() {
    let mut registry = SinkRegistry::new();
    let mut forest = SinkRegistry::new();
    forest.register_sink(Box::new(ConsoleSink::new()));

    // 不应该 panic
    forest.log(LogLevel::Info, Some("test"), "test message", None);
}

#[test]
fn test_console_sink_multiple_in_forest() {
    let mut registry = SinkRegistry::new();
    let mut forest = SinkRegistry::new();
    forest.register_sink(Box::new(ConsoleSink::new()));
    forest.register_sink(Box::new(ConsoleSink::with_min_level(LogLevel::Warn)));

    forest.log(LogLevel::Info, Some("test"), "info message", None);
    forest.log(LogLevel::Warn, Some("test"), "warn message", None);
    forest.log(LogLevel::Error, Some("test"), "error message", None);
}

#[test]
fn test_console_sink_with_filtering_tree() {
    let mut forest = SinkRegistry::new();
    let count = Arc::new(AtomicUsize::new(0));

    forest.register_sink(Box::new(ConsoleSink::with_min_level(LogLevel::Info)));
    forest.register_sink(Box::new(CountingTree::new(count.clone())));

    forest.log(LogLevel::Verbose, Some("test"), "verbose", None);
    forest.log(LogLevel::Info, Some("test"), "info", None);
    forest.log(LogLevel::Error, Some("test"), "error", None);

    // CountingTree 应该记录所有 3 条
    assert_eq!(count.load(Ordering::SeqCst), 3);
}

#[test]
fn test_extract_class_name_valid() {
    let line = "  at my_app::MainActivity::onCreate";
    let result = extract_class_name(line);
    assert_eq!(result, Some("MainActivity".to_string()));
}

#[test]
fn test_extract_class_name_with_namespace() {
    let line = "  at com::example::app::UserService::process_request";
    let result = extract_class_name(line);
    assert_eq!(result, Some("UserService".to_string()));
}

#[test]
fn test_extract_class_name_no_class() {
    let line = "  at my_app::utils::helper_function";
    let result = extract_class_name(line);
    // helper_function 不是类名（小写开头）
    assert_eq!(result, None);
}

#[test]
fn test_extract_class_name_no_double_colon() {
    let line = "  at some_function";
    let result = extract_class_name(line);
    assert_eq!(result, None);
}

#[test]
fn test_extract_class_name_with_parentheses() {
    let line = "  at my_app::MyClass::method(arg1, arg2)";
    let result = extract_class_name(line);
    assert_eq!(result, Some("MyClass".to_string()));
}

#[test]
fn test_extract_class_name_empty_string() {
    let line = "";
    let result = extract_class_name(line);
    assert_eq!(result, None);
}

#[test]
fn test_extract_class_name_only_module() {
    let line = "  at my_module::function";
    let result = extract_class_name(line);
    // my_module 小写开头，不是类名
    assert_eq!(result, None);
}

#[test]
fn test_console_sink_tag_priority() {
    // 显式 tag 应该优先于自动提取的 tag
    let sink = ConsoleSink::new();
    sink.log(LogLevel::Info, Some("explicit"), "message", None);
    // 输出应该使用 "explicit" 而不是自动提取的类名
}

#[test]
fn test_console_sink_fallback_to_scribe() {
    // 没有 tag 且无法提取类名时，应该使用 "Scribe"
    let sink = ConsoleSink::new();
    sink.log(LogLevel::Info, None, "message", None);
    // 输出应该使用 "Scribe"
}

#[test]
fn test_console_sink_level_boundary() {
    let sink = ConsoleSink::with_min_level(LogLevel::Info);

    // 边界测试
    assert!(!sink.is_loggable(LogLevel::Debug, None));
    assert!(sink.is_loggable(LogLevel::Info, None)); // 边界
    assert!(sink.is_loggable(LogLevel::Warn, None));
}

#[test]
fn test_console_sink_tag_independence() {
    // tag 参数不应影响 is_loggable 的结果（仅级别过滤）
    let sink = ConsoleSink::with_min_level(LogLevel::Info);

    assert!(sink.is_loggable(LogLevel::Info, None));
    assert!(sink.is_loggable(LogLevel::Info, Some("tag1")));
    assert!(sink.is_loggable(LogLevel::Info, Some("tag2")));

    assert!(!sink.is_loggable(LogLevel::Debug, None));
    assert!(!sink.is_loggable(LogLevel::Debug, Some("tag1")));
}

#[test]
fn test_console_sink_send_sync() {
    fn assert_send_sync<T: Send + Sync>() {}
    assert_send_sync::<ConsoleSink>();
}

#[test]
fn test_console_sink_as_trait_object() {
    let sink: Box<dyn LogSink> = Box::new(ConsoleSink::new());
    sink.log(LogLevel::Info, Some("test"), "message", None);
    assert!(sink.is_loggable(LogLevel::Verbose, None));
}

#[test]
fn test_console_sink_clone_via_new() {
    let tree1 = ConsoleSink::with_min_level(LogLevel::Warn);
    let tree2 = ConsoleSink::with_min_level(LogLevel::Warn);

    // 两个实例应该有相同的行为
    assert_eq!(
        tree1.is_loggable(LogLevel::Info, None),
        tree2.is_loggable(LogLevel::Info, None)
    );
}

#[test]
fn test_console_sink_stress_logging() {
    let sink = ConsoleSink::new();

    for i in 0..1000 {
        sink.log(
            LogLevel::Info,
            Some("stress"),
            &format!("message {}", i),
            None
        );
    }
}

#[test]
fn test_global_forest_with_debug_tree() {
    let mut registry = SinkRegistry::new();
    clear_sinks(&mut registry);

    register_sink(&mut registry, Box::new(ConsoleSink::with_min_level(LogLevel::Info)));

    registry.log(LogLevel::Verbose, Some("test"), "should be filtered", None);
    registry.log(LogLevel::Info, Some("test"), "should appear", None);
    registry.log(LogLevel::Error, Some("test"), "should appear", None);

    clear_sinks(&mut registry);
}

#[test]
fn test_console_sink_mixed_log_levels() {
    let mut forest = SinkRegistry::new();
    forest.register_sink(Box::new(ConsoleSink::with_min_level(LogLevel::Debug)));

    let levels = vec![
        LogLevel::Verbose,
        LogLevel::Debug,
        LogLevel::Info,
        LogLevel::Warn,
        LogLevel::Error,
    ];

    for level in levels {
        forest.log(level, Some("test"), &format!("{:?} message", level), None);
    }
}

#[test]
fn test_extract_class_name_complex_path() {
    let line = "  at deeply::nested::module::MyStruct::new";
    let result = extract_class_name(line);
    assert_eq!(result, Some("MyStruct".to_string()));
}

#[test]
fn test_extract_class_name_generic() {
    let line = "  at app::Container<T>::insert";
    let result = extract_class_name(line);
    // 应该提取 "Container"（可能包含 "<T>"）
    // 具体行为取决于实现
    assert!(result.is_some() || result.is_none());
}

#[test]
fn console_line_layout() {
    assert_eq!(ConsoleSink::format_line(LogLevel::Warn, "net", "down", Some("main")), "Warn [main] net: down");
    assert_eq!(ConsoleSink::format_line(LogLevel::Info, "Scribe", "", None), "Info Scribe: ");
}

#[test]
fn registry_register_and_clear_free_functions() {
    let mut registry = SinkRegistry::default();
    register_sink(&mut registry, Box::new(ConsoleSink::default()));
    register_sink(&mut registry, Box::new(ConsoleSink::with_min_level(LogLevel::Error)));
    assert_eq!(registry.sink_count(), 2);
    clear_sinks(&mut registry);
    assert_eq!(registry.sink_count(), 0);
}
