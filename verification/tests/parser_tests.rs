use thread_lens::models::{FrameCategory, ThreadCategory, ThreadState};
use thread_lens::parser::{detect_jvm_vendor, parse_jstack_output, JvmVendor};
use thread_lens::ibm::parse_jstack_output_ibm;
use thread_lens::openjdk::{parse_jstack_output_openjdk, parse_thread_state};

#[test]
fn test_parse_jstack_output_ibm_sample() {
    let sample_dump = r#"2025-09-21 03:42:28
Full thread dump IBM Semeru Runtime Open Edition 17.0.8.0 (build 17.0.8+7, JRE 17.0.8 Linux amd64-64-Bit ) (J9 0.42 +)

"main" J9VMThread:0x0000000000402000, omrthread:0x00007f8000001000, JavaThread:0x00007f8000001000, state:R, prio=5, OSCPUS=0.00%, tid=0x00007f8000001000, nid=0x1, fnid=0x1, stack:0x00007f8000001000-0x00007f8000002000, core:false, Java callstack:
	at com.example.threadanalyzer.ThreadAnalyzerApplication.main(ThreadAnalyzerApplication.java:100)

"BlockedThread" J9VMThread:0x0000000000403000, omrthread:0x00007f8000003000, JavaThread:0x00007f8000003000, state:B, prio=5, OSCPUS=0.00%, tid=0x00007f8000003000, nid=0x3, fnid=0x3, stack:0x00007f8000003000-0x00007f8000004000, core:false, Java callstack:
	at com.example.threadanalyzer.ThreadAnalyzerApplication.lambda$null$2(ThreadAnalyzerApplication.java:96)
	- waiting on <0x00000000e0000000> (a java.lang.Object)
	at java.lang.Object.wait(java.base@17.0.8/Native Method)

"BlockerThread" J9VMThread:0x0000000000404000, omrthread:0x00007f8000005000, JavaThread:0x00007f8000005000, state:B, prio=5, OSCPUS=0.00%, tid=0x00007f8000005000, nid=0x5, fnid=0x5, stack:0x00007f8000005000-0x00007f8000006000, core:false, Java callstack:
	at com.example.threadanalyzer.ThreadAnalyzerApplication.lambda$main$1(ThreadAnalyzerApplication.java:80)
	- waiting on <0x00000000e0000001> (a java.lang.Object)
	at java.lang.Object.wait(java.base@17.0.8/Native Method)
"#;

    let dump = parse_jstack_output_ibm(sample_dump).expect("Failed to parse IBM dump");

    assert_eq!(dump.threads.len(), 3);
    assert_eq!(dump.jvm_version, "IBM Semeru Runtime Open Edition 17.0.8.0");

    // Test main thread
    let main_thread = &dump.threads[0];
    assert_eq!(main_thread.name, "main");
    assert_eq!(main_thread.state.label(), "RUNNABLE");
    assert_eq!(main_thread.category, ThreadCategory::Application);
    assert_eq!(main_thread.frames.len(), 1);
    assert_eq!(main_thread.frames[0].line, "at com.example.threadanalyzer.ThreadAnalyzerApplication.main(ThreadAnalyzerApplication.java:100)");
    assert_eq!(main_thread.frames[0].category, FrameCategory::Application);

    // Test BlockedThread
    let blocked_thread = &dump.threads[1];
    assert_eq!(blocked_thread.name, "BlockedThread");
    assert_eq!(blocked_thread.state.label(), "BLOCKED");
    assert_eq!(blocked_thread.category, ThreadCategory::Application);
    assert_eq!(blocked_thread.frames.len(), 2);
    assert_eq!(blocked_thread.frames[0].line, "at com.example.threadanalyzer.ThreadAnalyzerApplication.lambda$null$2(ThreadAnalyzerApplication.java:96)");
    assert_eq!(
        blocked_thread.frames[0].category,
        FrameCategory::Application
    );
    assert_eq!(
        blocked_thread.frames[1].line,
        "at java.lang.Object.wait(java.base@17.0.8/Native Method)"
    );
    assert_eq!(blocked_thread.frames[1].category, FrameCategory::Jvm);

    // Test BlockerThread
    let blocker_thread = &dump.threads[2];
    assert_eq!(blocker_thread.name, "BlockerThread");
    assert_eq!(blocker_thread.state.label(), "BLOCKED");
    assert_eq!(blocker_thread.category, ThreadCategory::Application);
    assert_eq!(blocker_thread.frames.len(), 2);
    assert_eq!(blocker_thread.frames[0].line, "at com.example.threadanalyzer.ThreadAnalyzerApplication.lambda$main$1(ThreadAnalyzerApplication.java:80)");
    assert_eq!(
        blocker_thread.frames[0].category,
        FrameCategory::Application
    );
    assert_eq!(
        blocker_thread.frames[1].line,
        "at java.lang.Object.wait(java.base@17.0.8/Native Method)"
    );
    assert_eq!(blocker_thread.frames[1].category, FrameCategory::Jvm);
}

#[test]
fn test_parse_jstack_output_openjdk_sample() {
    let sample_dump = r#"2025-09-21 03:30:13
Full thread dump OpenJDK 64-Bit Server VM (11.0.16+8 mixed mode, sharing):

"main" #1 prio=5 os_prio=0 cpu=0.00ms elapsed=0.00s tid=0x0000e91980193800 nid=0x2d runnable  [0x0000e919527fe000]
   java.lang.Thread.State: RUNNABLE

"Thread-0" #10 prio=5 os_prio=0 cpu=106.01ms elapsed=0.25s tid=0x0000e91980193800 nid=0x2d in Object.wait()  [0x0000e919527fe000]
   java.lang.Thread.State: WAITING (on object monitor)
	at java.lang.Object.wait(java.base@11.0.16/Native Method)
	- waiting on <0x00000000e2e2f648> (a java.lang.Object)
	at com.example.threadanalyzer.ThreadAnalyzerApplication.lambda$null$2(ThreadAnalyzerApplication.java:96)

"BlockedThread" #11 prio=5 os_prio=0 cpu=106.01ms elapsed=0.25s tid=0x0000e91980193800 nid=0x2d in Object.wait()  [0x0000e919527fe000]
   java.lang.Thread.State: BLOCKED (on object monitor)
	at com.example.threadanalyzer.ThreadAnalyzerApplication.lambda$null$2(ThreadAnalyzerApplication.java:96)
"#;

    let dump = parse_jstack_output_openjdk(sample_dump).expect("Failed to parse OpenJDK dump");

    assert_eq!(dump.threads.len(), 3);
    assert_eq!(dump.jvm_version, "OpenJDK 64-Bit Server VM (11.0.16+8)");

    // Test main thread
    let main_thread = &dump.threads[0];
    assert_eq!(main_thread.name, "main");
    assert_eq!(main_thread.state.label(), "RUNNABLE");
    assert_eq!(main_thread.category, ThreadCategory::Jvm);
    assert_eq!(main_thread.frames.len(), 0);

    // Test Thread-0 (WAITING on object monitor -> BLOCKED)
    let thread_0 = &dump.threads[1];
    assert_eq!(thread_0.name, "Thread-0");
    assert_eq!(thread_0.state.label(), "BLOCKED");
    assert_eq!(thread_0.category, ThreadCategory::Application);
    assert_eq!(thread_0.frames.len(), 2);
    assert_eq!(
        thread_0.frames[0].line,
        "at java.lang.Object.wait(java.base@11.0.16/Native Method)"
    );
    assert_eq!(thread_0.frames[0].category, FrameCategory::Jvm);
    assert_eq!(thread_0.frames[1].line, "at com.example.threadanalyzer.ThreadAnalyzerApplication.lambda$null$2(ThreadAnalyzerApplication.java:96)");
    assert_eq!(thread_0.frames[1].category, FrameCategory::Application);

    // Test BlockedThread
    let blocked_thread = &dump.threads[2];
    assert_eq!(blocked_thread.name, "BlockedThread");
    assert_eq!(blocked_thread.state.label(), "BLOCKED");
    assert_eq!(blocked_thread.category, ThreadCategory::Application);
    assert_eq!(blocked_thread.frames.len(), 1);
    assert_eq!(blocked_thread.frames[0].line, "at com.example.threadanalyzer.ThreadAnalyzerApplication.lambda$null$2(ThreadAnalyzerApplication.java:96)");
    assert_eq!(
        blocked_thread.frames[0].category,
        FrameCategory::Application
    );
}

#[test]
fn test_detect_jvm_vendor_markers() {
    assert_eq!(detect_jvm_vendor("Full thread dump OpenJDK 64-Bit Server VM"), JvmVendor::OpenJDK);
    assert_eq!(detect_jvm_vendor("Java HotSpot(TM) 64-Bit Server VM"), JvmVendor::OpenJDK);
    assert_eq!(detect_jvm_vendor("IBM J9 VM"), JvmVendor::IBM);
    assert_eq!(detect_jvm_vendor("Eclipse OpenJ9 VM"), JvmVendor::IBM);
    assert_eq!(detect_jvm_vendor("built with OpenJ9"), JvmVendor::IBM);
    assert_eq!(detect_jvm_vendor("some random text"), JvmVendor::Unknown);
    // Tie-break: OpenJDK markers are checked first.
    assert_eq!(detect_jvm_vendor("OpenJDK and OpenJ9 together"), JvmVendor::OpenJDK);
    assert_eq!(detect_jvm_vendor(""), JvmVendor::Unknown);
}

#[test]
fn test_reclassified_waiting_states() {
    // A WAITING state line annotated as monitor wait or parking is BLOCKED.
    assert_eq!(
        parse_thread_state("java.lang.Thread.State: WAITING (on object monitor)"),
        ThreadState::Blocked
    );
    assert_eq!(
        parse_thread_state("java.lang.Thread.State: WAITING (parking)"),
        ThreadState::Blocked
    );
}

#[test]
fn test_parse_thread_state_vocabulary() {
    assert_eq!(parse_thread_state("java.lang.Thread.State: RUNNABLE"), ThreadState::Runnable);
    assert_eq!(parse_thread_state("java.lang.Thread.State: BLOCKED"), ThreadState::Blocked);
    assert_eq!(parse_thread_state("java.lang.Thread.State: WAITING"), ThreadState::Waiting);
    assert_eq!(
        parse_thread_state("java.lang.Thread.State: TIMED_WAITING (sleeping)"),
        ThreadState::TimedWaiting
    );
    assert_eq!(parse_thread_state("java.lang.Thread.State: SOMETHING"), ThreadState::Unknown);
    assert_eq!(parse_thread_state("java.lang.Thread.State:"), ThreadState::Unknown);
    assert_eq!(parse_thread_state(""), ThreadState::Unknown);
}

#[test]
fn test_ibm_header_embedded_state() {
    // state:B must normalize to BLOCKED even absent the literal " BLOCKED".
    let dump_text = "Full thread dump OpenJ9\n\"W\" state:B, prio=5, tid=0x1\n";
    let dump = parse_jstack_output(dump_text).expect("parse failed");
    assert_eq!(dump.threads.len(), 1);
    assert_eq!(dump.threads[0].name, "W");
    assert_eq!(dump.threads[0].state, ThreadState::Blocked);
}

#[test]
fn test_lenient_parse_no_headers() {
    // Text with no recognizable thread headers: empty thread list and a
    // placeholder version, never an error.
    let dump = parse_jstack_output("no headers here\njust noise\n").expect("parse failed");
    assert_eq!(dump.threads.len(), 0);
    assert_eq!(dump.jvm_version, "OpenJDK (Unknown Version)");

    let dump2 = parse_jstack_output("").expect("parse failed");
    assert_eq!(dump2.threads.len(), 0);
    assert_eq!(dump2.jvm_version, "OpenJDK (Unknown Version)");

    let dump3 = parse_jstack_output("contains OpenJ9 but no thread header lines")
        .expect("parse failed");
    assert_eq!(dump3.threads.len(), 0);
    assert_eq!(dump3.jvm_version, "IBM J9 (Unknown Version)");
}

#[test]
fn test_openjdk_header_without_closing_quote() {
    // A header with no second quote yields an empty thread name.
    let text = "\"Worker nid=0x1\n   java.lang.Thread.State: RUNNABLE\n";
    let dump = parse_jstack_output_openjdk(text).expect("parse failed");
    assert_eq!(dump.threads.len(), 1);
    assert_eq!(dump.threads[0].name, "");
    assert_eq!(dump.threads[0].state, ThreadState::Runnable);
}

#[test]
fn test_version_extraction_exact() {
    let text = "Full thread dump  Foo VM  (1.2.3+4):\n";
    let dump = parse_jstack_output_openjdk(text).expect("parse failed");
    // The display name is trimmed, the build id keeps only the numeric part.
    assert_eq!(dump.jvm_version, "Foo VM (1.2.3+4)");

    // A build id that is not digits.digits.digits+digits does not match.
    let bad = parse_jstack_output_openjdk("Full thread dump Foo (abc):\n").expect("parse failed");
    assert_eq!(bad.jvm_version, "OpenJDK (Unknown Version)");

    // The IBM version quadruple needs all four numeric parts.
    let ibm = parse_jstack_output_ibm(
        "Full thread dump IBM Semeru Runtime Open Edition 17.0.8.0\n",
    )
    .expect("parse failed");
    assert_eq!(ibm.jvm_version, "IBM Semeru Runtime Open Edition 17.0.8.0");
    let ibm_bad = parse_jstack_output_ibm(
        "Full thread dump IBM Semeru Runtime Open Edition 17.0.8\n",
    )
    .expect("parse failed");
    assert_eq!(ibm_bad.jvm_version, "IBM J9 (Unknown Version)");
}

#[test]
fn test_state_line_before_first_header_is_ignored() {
    // A state line belongs to a thread's block; one seen before any header
    // must not resolve the first thread's state.
    let text = "   java.lang.Thread.State: RUNNABLE\n\"W\" nid=0x1\n";
    let dump = parse_jstack_output_openjdk(text).expect("parse failed");
    assert_eq!(dump.threads.len(), 1);
    assert_eq!(dump.threads[0].state, ThreadState::Unknown);
}

#[test]
fn test_ibm_version_marker_scan() {
    // The first marker occurrence carries no version quadruple; a later one
    // does and is the one extracted.
    let text = "Full thread dump IBM Semeru Runtime Open Edition notes: \
Full thread dump IBM Semeru Runtime Open Edition 17.0.8.0 (J9)\n";
    let dump = parse_jstack_output_ibm(text).expect("parse failed");
    assert_eq!(dump.jvm_version, "IBM Semeru Runtime Open Edition 17.0.8.0");
}

#[test]
fn test_final_line_carriage_return_kept() {
    // A carriage return is part of a line ending only when a newline follows;
    // on a final unterminated line it stays and spoils the version match.
    let with_crlf =
        parse_jstack_output_openjdk("Full thread dump Foo (1.2.3+4):\r\n").expect("parse failed");
    assert_eq!(with_crlf.jvm_version, "Foo (1.2.3+4)");
    let bare_cr =
        parse_jstack_output_openjdk("Full thread dump Foo (1.2.3+4):\r").expect("parse failed");
    assert_eq!(bare_cr.jvm_version, "OpenJDK (Unknown Version)");
}

#[test]
fn test_version_extraction_placeholders() {
    let text = "\"T\" nid=0x1\n";
    let dump = parse_jstack_output_openjdk(text).expect("parse failed");
    assert_eq!(dump.jvm_version, "OpenJDK (Unknown Version)");

    let dump2 = parse_jstack_output_ibm("\"T\" prio=5 tid=0x1 RUNNABLE\n").expect("parse failed");
    assert_eq!(dump2.jvm_version, "IBM J9 (Unknown Version)");
}
