use thread_lens::codec::{deserialize_dump, serialize_dump};
use thread_lens::models::{
    CategorizedFrame, FrameCategory, NormalizedThread, ThreadCategory, ThreadDump, ThreadState,
};

fn sample_dump() -> ThreadDump {
    ThreadDump {
        jvm_version: "OpenJDK 64-Bit Server VM (11.0.16+8)".to_string(),
        timestamp: 1758425413123,
        threads: vec![
            NormalizedThread {
                name: "main".to_string(),
                state: ThreadState::Runnable,
                category: ThreadCategory::Jvm,
                frames: vec![],
            },
            NormalizedThread {
                name: "Thread-\u{e9}\u{4e16}".to_string(),
                state: ThreadState::Blocked,
                category: ThreadCategory::Application,
                frames: vec![
                    CategorizedFrame {
                        line: "at java.lang.Object.wait(Native Method)".to_string(),
                        category: FrameCategory::Jvm,
                    },
                    CategorizedFrame {
                        line: "at com.example.App.run(App.java:1)".to_string(),
                        category: FrameCategory::Application,
                    },
                ],
            },
        ],
    }
}

#[test]
fn test_serialize_round_trip() {
    let dump = sample_dump();
    let bytes = serialize_dump(&dump);
    let back = deserialize_dump(&bytes).expect("decoding an encoded snapshot must succeed");

    assert_eq!(back.jvm_version, dump.jvm_version);
    assert_eq!(back.timestamp, dump.timestamp);
    assert_eq!(back.threads.len(), dump.threads.len());
    for (a, b) in back.threads.iter().zip(dump.threads.iter()) {
        assert_eq!(a.name, b.name);
        assert_eq!(a.state, b.state);
        assert_eq!(a.category, b.category);
        assert_eq!(a.frames.len(), b.frames.len());
        for (fa, fb) in a.frames.iter().zip(b.frames.iter()) {
            assert_eq!(fa.line, fb.line);
            assert_eq!(fa.category, fb.category);
        }
    }
}

#[test]
fn test_serialize_negative_timestamp_round_trip() {
    let mut dump = sample_dump();
    dump.timestamp = -1;
    let bytes = serialize_dump(&dump);
    let back = deserialize_dump(&bytes).expect("decode failed");
    assert_eq!(back.timestamp, -1);
}

#[test]
fn test_serialize_empty_dump_round_trip() {
    let dump = ThreadDump { jvm_version: String::new(), timestamp: 0, threads: vec![] };
    let bytes = serialize_dump(&dump);
    let back = deserialize_dump(&bytes).expect("decode failed");
    assert_eq!(back.jvm_version, "");
    assert_eq!(back.threads.len(), 0);
}

#[test]
fn test_deserialize_rejects_garbage() {
    assert!(deserialize_dump(&[]).is_none());
    assert!(deserialize_dump(&[1, 2, 3]).is_none());
    // A huge declared length with no data behind it.
    assert!(deserialize_dump(&[255, 255, 255, 255, 255, 255, 255, 255, 0]).is_none());
}

#[test]
fn test_deserialize_rejects_trailing_bytes() {
    let dump = ThreadDump { jvm_version: "v".to_string(), timestamp: 0, threads: vec![] };
    let mut bytes = serialize_dump(&dump);
    bytes.push(0);
    assert!(deserialize_dump(&bytes).is_none());
}

#[test]
fn test_serialization_is_not_the_identity() {
    // The byte stream is a real encoding: decoding the raw text of a name
    // does not succeed, and the encoding differs from the name's bytes.
    let dump = ThreadDump { jvm_version: "abc".to_string(), timestamp: 0, threads: vec![] };
    let bytes = serialize_dump(&dump);
    assert_ne!(bytes, "abc".as_bytes());
    assert!(deserialize_dump("abc".as_bytes()).is_none());
}
