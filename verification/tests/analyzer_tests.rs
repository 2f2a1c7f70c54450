use thread_lens::analyzer::{
    categorize_frame, determine_thread_category, find_chronically_blocked_threads,
    is_application_frame,
};
use thread_lens::models::{
    CategorizedFrame, FrameCategory, NormalizedThread, ThreadCategory, ThreadDump, ThreadState,
};

fn blocked_app_thread(name: &str) -> NormalizedThread {
    NormalizedThread {
        name: name.to_string(),
        state: ThreadState::Blocked,
        category: ThreadCategory::Application,
        frames: vec![],
    }
}

fn dump_of(version: &str, threads: Vec<NormalizedThread>) -> ThreadDump {
    ThreadDump { jvm_version: version.to_string(), timestamp: 0, threads }
}

#[test]
fn test_find_chronically_blocked_threads() {
    let mut dumps = Vec::new();

    // Dump 1
    let thread1 = NormalizedThread {
        name: "Thread-1".to_string(),
        state: ThreadState::Blocked,
        category: ThreadCategory::Application,
        frames: vec![],
    };
    let dump1 = dump_of("1.8.0", vec![thread1]);
    dumps.push(dump1);

    // Dump 2
    let thread2 = NormalizedThread {
        name: "Thread-1".to_string(),
        state: ThreadState::Blocked,
        category: ThreadCategory::Application,
        frames: vec![],
    };
    let dump2 = dump_of("1.8.0", vec![thread2]);
    dumps.push(dump2);

    let chronically_blocked = find_chronically_blocked_threads(&dumps);
    assert_eq!(chronically_blocked.len(), 1);
    assert!(chronically_blocked.iter().any(|e| e.name == "Thread-1"));
    let entry = chronically_blocked.iter().find(|e| e.name == "Thread-1").unwrap();
    assert_eq!(entry.count, 2);
}

#[test]
fn test_chronic_detection_two_snapshots() {
    // Two snapshots, each containing one blocked Application thread named
    // "Thread-1": exactly one chronic entry, with count 2.
    let dumps = vec![
        dump_of("v", vec![blocked_app_thread("Thread-1")]),
        dump_of("v", vec![blocked_app_thread("Thread-1")]),
    ];
    let report = find_chronically_blocked_threads(&dumps);
    assert_eq!(report.len(), 1);
    assert_eq!(report[0].name, "Thread-1");
    assert_eq!(report[0].count, 2);
    assert_eq!(report[0].thread.state, ThreadState::Blocked);
}

#[test]
fn test_non_chronic_single_sighting() {
    // A name blocked in exactly one of three snapshots must not be reported.
    let quiet = NormalizedThread {
        name: "Once".to_string(),
        state: ThreadState::Runnable,
        category: ThreadCategory::Application,
        frames: vec![],
    };
    let dumps = vec![
        dump_of("v", vec![blocked_app_thread("Once")]),
        dump_of("v", vec![]),
        dump_of("v", vec![quiet]),
    ];
    let report = find_chronically_blocked_threads(&dumps);
    assert!(report.iter().all(|e| e.name != "Once"));
    assert_eq!(report.len(), 0);
}

#[test]
fn test_chronic_reports_latest_sighting() {
    // The reported thread is the last one recorded under the name, in input
    // order, whatever its state there.
    let mut last = blocked_app_thread("T");
    last.state = ThreadState::Waiting;
    last.category = ThreadCategory::Framework;
    let dumps = vec![
        dump_of("v", vec![blocked_app_thread("T")]),
        dump_of("v", vec![blocked_app_thread("T")]),
        dump_of("v", vec![last]),
    ];
    let report = find_chronically_blocked_threads(&dumps);
    assert_eq!(report.len(), 1);
    assert_eq!(report[0].count, 2);
    assert_eq!(report[0].thread.state, ThreadState::Waiting);
    assert_eq!(report[0].thread.category, ThreadCategory::Framework);
}

#[test]
fn test_blocked_non_application_not_counted() {
    // Blocked threads whose category is not Application never count.
    let mut t = blocked_app_thread("Fw");
    t.category = ThreadCategory::Framework;
    let mut t2 = blocked_app_thread("Fw");
    t2.category = ThreadCategory::Framework;
    let dumps = vec![dump_of("v", vec![t]), dump_of("v", vec![t2])];
    let report = find_chronically_blocked_threads(&dumps);
    assert_eq!(report.len(), 0);
}

#[test]
fn test_categorize_frame_priority_order() {
    assert_eq!(
        categorize_frame("at java.lang.Object.wait(Native Method)"),
        FrameCategory::Jvm
    );
    assert_eq!(categorize_frame("	at sun.misc.Unsafe.park(Unsafe.java)"), FrameCategory::Jvm);
    assert_eq!(categorize_frame("at jdk.internal.misc.Unsafe.park"), FrameCategory::Jvm);
    assert_eq!(
        categorize_frame("at org.eclipse.jetty.server.Server.join(Server.java:551)"),
        FrameCategory::Framework
    );
    assert_eq!(
        categorize_frame("at app//org.eclipse.jetty.server.Server.join(Server.java:551)"),
        FrameCategory::Framework
    );
    assert_eq!(
        categorize_frame("at spark.Service.lambda$init$2(Service.java:644)"),
        FrameCategory::Framework
    );
    assert_eq!(
        categorize_frame("at app//spark.Service.lambda$init$2(Service.java:644)"),
        FrameCategory::Framework
    );
    assert_eq!(
        categorize_frame("at com.example.App.run(App.java:1)"),
        FrameCategory::Application
    );
    assert_eq!(categorize_frame("not a frame at all"), FrameCategory::Application);
}

#[test]
fn test_categorize_frame_unicode_whitespace() {
    // Leading Unicode whitespace counts as whitespace before the marker.
    assert_eq!(
        categorize_frame("\u{a0}\u{2003}at java.lang.Thread.run(Thread.java:1)"),
        FrameCategory::Jvm
    );
}

#[test]
fn test_categorize_frame_deterministic() {
    // Same input, same category, every call.
    let line = "at com.example.App.run(App.java:1)";
    assert_eq!(categorize_frame(line), categorize_frame(line));
    let jvm_line = "at java.lang.Thread.run(Thread.java:748)";
    assert_eq!(categorize_frame(jvm_line), categorize_frame(jvm_line));
}

#[test]
fn test_determine_thread_category_law() {
    let jvm = |s: &str| CategorizedFrame { line: s.to_string(), category: FrameCategory::Jvm };
    let fw = |s: &str| CategorizedFrame {
        line: s.to_string(),
        category: FrameCategory::Framework,
    };
    let app = |s: &str| CategorizedFrame {
        line: s.to_string(),
        category: FrameCategory::Application,
    };

    // Empty stack: Jvm by convention.
    assert_eq!(determine_thread_category(&[]), ThreadCategory::Jvm);
    // All JVM frames: Jvm.
    assert_eq!(determine_thread_category(&[jvm("a"), jvm("b")]), ThreadCategory::Jvm);
    // Any application frame anywhere: Application.
    assert_eq!(
        determine_thread_category(&[jvm("a"), fw("b"), app("c")]),
        ThreadCategory::Application
    );
    assert_eq!(determine_thread_category(&[app("c"), jvm("a")]), ThreadCategory::Application);
    // Framework beats Jvm when no application frame is present.
    assert_eq!(determine_thread_category(&[jvm("a"), fw("b")]), ThreadCategory::Framework);
}

#[test]
fn test_is_application_frame_with_ibm_dump_data() {
    // Frame from IBM dump that should be identified as application frame
    let app_frame_with_app_prefix = "at app//com.example.threadanalyzer.ThreadAnalyzerApplication.lambda$main$2(ThreadAnalyzerApplication.java:95)";
    let app_frame_with_app_prefix_2 = "at app//com.example.threadanalyzer.ThreadAnalyzerApplication.lambda$main$1(ThreadAnalyzerApplication.java:79)";
    let app_frame_with_app_prefix_3 = "at app//com.example.threadanalyzer.ThreadAnalyzerApplication.lambda$main$1(ThreadAnalyzerApplication.java:83)";

    // Frames from IBM dump that should NOT be identified as application frames
    let spark_frame = "at app//spark.Service.lambda$init$2(Service.java:644)";
    let jetty_frame = "at app//org.eclipse.jetty.server.Server.join(Server.java:551)";
    let jetty_util_frame = "at app//org.eclipse.jetty.util.thread.QueuedThreadPool.join(QueuedThreadPool.java:567)";

    let app_package_prefix = Some("com.example.threadanalyzer");

    // Assertions for application frames
    assert!(is_application_frame(app_frame_with_app_prefix, app_package_prefix));
    assert!(is_application_frame(app_frame_with_app_prefix_2, app_package_prefix));
    assert!(is_application_frame(app_frame_with_app_prefix_3, app_package_prefix));

    // Assertions for non-application frames
    assert!(!is_application_frame(spark_frame, app_package_prefix));
    assert!(!is_application_frame(jetty_frame, app_package_prefix));
    assert!(!is_application_frame(jetty_util_frame, app_package_prefix));

    // Test with None app_package_prefix
    assert!(!is_application_frame(app_frame_with_app_prefix, None));
    assert!(!is_application_frame(spark_frame, None));
}

#[test]
fn test_state_labels() {
    assert_eq!(ThreadState::Runnable.label(), "RUNNABLE");
    assert_eq!(ThreadState::Blocked.label(), "BLOCKED");
    assert_eq!(ThreadState::Waiting.label(), "WAITING");
    assert_eq!(ThreadState::TimedWaiting.label(), "TIMED_WAITING");
    assert_eq!(ThreadState::Unknown.label(), "UNKNOWN");
}
