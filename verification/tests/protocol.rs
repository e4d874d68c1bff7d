use memstapler::protocol::{cycle_lines, decode, encode, Message};

#[test]
fn dot_ends_the_cycle() {
    assert_eq!(decode("."), Message::CycleEnded);
    assert_eq!(encode(&Message::CycleEnded), ".\n");
}

#[test]
fn every_other_line_is_a_path() {
    for line in ["/usr/lib/libc.so.6", "/", "..", "./", " .", ". ", "", "/opt/my app/x"] {
        assert_eq!(decode(line), Message::PathReported(line.to_string()));
    }
}

#[test]
fn path_is_written_with_a_newline() {
    assert_eq!(
        encode(&Message::PathReported("/usr/lib/libc.so.6".to_string())),
        "/usr/lib/libc.so.6\n"
    );
    assert_eq!(encode(&Message::PathReported("/opt/büro".to_string())), "/opt/büro\n");
}

#[test]
fn message_reads_back() {
    for message in [
        Message::CycleEnded,
        Message::PathReported("/usr/bin/env".to_string()),
        Message::PathReported("/".to_string()),
    ] {
        let text = encode(&message);
        assert_eq!(decode(text.strip_suffix('\n').unwrap()), message);
    }
}

#[test]
fn cycle_is_paths_then_marker() {
    let paths = vec!["/usr/bin/b".to_string(), "/usr/bin/a".to_string()];
    assert_eq!(cycle_lines(&paths), vec!["/usr/bin/b\n", "/usr/bin/a\n", ".\n"]);
}

#[test]
fn cycle_without_files_is_the_marker_alone() {
    assert_eq!(cycle_lines(&Vec::new()), vec![".\n"]);
}

#[test]
fn written_cycle_reads_back_line_by_line() {
    let paths = vec!["/usr/bin/b".to_string(), "/usr/lib/libc.so.6".to_string()];
    let wire: String = cycle_lines(&paths).concat();
    let read: Vec<Message> = wire.lines().map(decode).collect();
    assert_eq!(
        read,
        vec![
            Message::PathReported("/usr/bin/b".to_string()),
            Message::PathReported("/usr/lib/libc.so.6".to_string()),
            Message::CycleEnded,
        ]
    );
}
