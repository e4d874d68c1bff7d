use memstapler::protocol::{cycle_lines, decode, Message};
use memstapler::residency::{
    mapping_length, MapRefusal, Mapping, Release, Residency, ResidencyTable, STALE_AFTER,
};

fn mapping(addr: usize, len: usize) -> Mapping {
    Mapping::new(addr, len).unwrap()
}

/// Plays one cycle as a worker does: every path line is reported, a file
/// that is not resident is mapped at `fresh`, and at the marker every entry
/// that is due is given back, unless its path is in `stuck`.
fn play_cycle(
    table: &mut ResidencyTable,
    paths: &[&str],
    fresh: Mapping,
    stuck: &[&str],
) -> Vec<Release> {
    let owned: Vec<String> = paths.iter().map(|p| p.to_string()).collect();
    let mut given_back = Vec::new();
    for line in cycle_lines(&owned) {
        let line = line.strip_suffix('\n').unwrap();
        match decode(line) {
            Message::PathReported(path) => {
                if !table.observe(&path) {
                    assert!(table.install(&path, fresh));
                }
            }
            Message::CycleEnded => {
                let mut released = Vec::new();
                for due in table.expired() {
                    if !stuck.contains(&due.path.as_str()) {
                        released.push(due.path.clone());
                        given_back.push(due);
                    }
                }
                table.end_cycle(&released);
            }
        }
    }
    given_back
}

#[test]
fn mapping_needs_address_and_length() {
    assert!(Mapping::new(0, 4096).is_none());
    assert!(Mapping::new(4096, 0).is_none());
    let m = Mapping::new(4096, 17).unwrap();
    assert_eq!(m.addr(), 4096);
    assert_eq!(m.len(), 17);
}

#[test]
fn mapping_length_of_files() {
    assert_eq!(mapping_length(0), Err(MapRefusal::Empty));
    assert_eq!(mapping_length(1), Ok(1));
    assert_eq!(mapping_length(2_097_152), Ok(2_097_152));
    if usize::BITS < 64 {
        assert_eq!(mapping_length(u64::MAX), Err(MapRefusal::TooLarge));
    } else {
        assert_eq!(mapping_length(u64::MAX), Ok(usize::MAX));
    }
}

#[test]
fn new_table_is_empty() {
    let table = ResidencyTable::new();
    assert_eq!(table.len(), 0);
    assert_eq!(table.lookup("/usr/bin/env"), None);
    assert!(table.expired().is_empty());
}

#[test]
fn unknown_path_is_left_to_the_caller() {
    let mut table = ResidencyTable::new();
    assert!(!table.observe("/usr/bin/env"));
    assert_eq!(table.len(), 0);
}

#[test]
fn installed_file_starts_at_zero() {
    let mut table = ResidencyTable::new();
    assert!(table.install("/usr/bin/env", mapping(0x7000, 100)));
    assert_eq!(
        table.lookup("/usr/bin/env"),
        Some(Residency { mapping: mapping(0x7000, 100), last_seen_ago: 0 })
    );
    assert_eq!(table.len(), 1);
}

#[test]
fn second_mapping_of_a_resident_file_is_not_taken() {
    let mut table = ResidencyTable::new();
    assert!(table.install("/usr/bin/env", mapping(0x7000, 100)));
    assert!(!table.install("/usr/bin/env", mapping(0x9000, 100)));
    assert_eq!(table.len(), 1);
    assert_eq!(table.lookup("/usr/bin/env").unwrap().mapping, mapping(0x7000, 100));
}

#[test]
fn report_resets_the_counter_and_keeps_the_mapping() {
    let mut table = ResidencyTable::new();
    table.install("/usr/bin/env", mapping(0x7000, 100));
    table.end_cycle(&Vec::new());
    table.end_cycle(&Vec::new());
    assert_eq!(table.lookup("/usr/bin/env").unwrap().last_seen_ago, 2);
    assert!(table.observe("/usr/bin/env"));
    assert_eq!(
        table.lookup("/usr/bin/env"),
        Some(Residency { mapping: mapping(0x7000, 100), last_seen_ago: 0 })
    );
}

#[test]
fn marker_ages_every_entry_by_one() {
    let mut table = ResidencyTable::new();
    table.install("/a", mapping(0x1000, 1));
    table.end_cycle(&Vec::new());
    table.install("/b", mapping(0x2000, 2));
    table.end_cycle(&Vec::new());
    assert_eq!(table.lookup("/a").unwrap().last_seen_ago, 2);
    assert_eq!(table.lookup("/b").unwrap().last_seen_ago, 1);
}

#[test]
fn counter_stops_at_the_threshold() {
    let mut table = ResidencyTable::new();
    table.install("/a", mapping(0x1000, 1));
    for _ in 0..9 {
        table.end_cycle(&Vec::new());
    }
    assert_eq!(STALE_AFTER, 5);
    assert_eq!(table.lookup("/a").unwrap().last_seen_ago, 5);
}

#[test]
fn release_of_an_entry_that_is_not_due_is_ignored() {
    let mut table = ResidencyTable::new();
    table.install("/a", mapping(0x1000, 1));
    for step in 1..=5u8 {
        assert!(table.expired().is_empty());
        table.end_cycle(&vec!["/a".to_string()]);
        assert_eq!(table.lookup("/a").unwrap().last_seen_ago, step);
    }
    assert_eq!(
        table.expired(),
        vec![Release { path: "/a".to_string(), mapping: mapping(0x1000, 1) }]
    );
    table.end_cycle(&vec!["/a".to_string()]);
    assert_eq!(table.lookup("/a"), None);
    assert_eq!(table.len(), 0);
}

#[test]
fn failed_release_is_tried_again() {
    let mut table = ResidencyTable::new();
    let first = play_cycle(&mut table, &["/a", "/b"], mapping(0x1000, 8), &[]);
    assert!(first.is_empty());
    for _ in 0..4 {
        assert!(play_cycle(&mut table, &[], mapping(0x1000, 8), &["/a"]).is_empty());
    }
    let gone = play_cycle(&mut table, &[], mapping(0x1000, 8), &["/a"]);
    assert_eq!(gone, vec![Release { path: "/b".to_string(), mapping: mapping(0x1000, 8) }]);
    assert_eq!(
        table.lookup("/a"),
        Some(Residency { mapping: mapping(0x1000, 8), last_seen_ago: 5 })
    );
    assert_eq!(table.lookup("/b"), None);
    let later = play_cycle(&mut table, &[], mapping(0x1000, 8), &[]);
    assert_eq!(later, vec![Release { path: "/a".to_string(), mapping: mapping(0x1000, 8) }]);
    assert_eq!(table.len(), 0);
}

#[test]
fn file_reported_every_cycle_is_mapped_once() {
    let mut table = ResidencyTable::new();
    play_cycle(&mut table, &["/usr/lib/libm.so.6"], mapping(0x1000, 8), &[]);
    for round in 0..20usize {
        let given_back =
            play_cycle(&mut table, &["/usr/lib/libm.so.6"], mapping(0x2000 + round, 8), &[]);
        assert!(given_back.is_empty());
        assert_eq!(
            table.lookup("/usr/lib/libm.so.6"),
            Some(Residency { mapping: mapping(0x1000, 8), last_seen_ago: 1 })
        );
        assert!(table.observe("/usr/lib/libm.so.6"));
        assert_eq!(table.lookup("/usr/lib/libm.so.6").unwrap().last_seen_ago, 0);
        assert_eq!(table.len(), 1);
    }
}

#[test]
fn file_that_returns_in_time_is_never_released() {
    for absent in 0..5usize {
        let mut table = ResidencyTable::new();
        play_cycle(&mut table, &["/opt/tool"], mapping(0x1000, 8), &[]);
        for _ in 0..absent {
            assert!(play_cycle(&mut table, &[], mapping(0x2000, 8), &[]).is_empty());
            assert!(table.lookup("/opt/tool").is_some());
        }
        assert!(table.observe("/opt/tool"));
        assert_eq!(
            table.lookup("/opt/tool"),
            Some(Residency { mapping: mapping(0x1000, 8), last_seen_ago: 0 })
        );
    }
}

#[test]
fn file_is_released_at_the_fifth_marker_without_a_report() {
    let mut table = ResidencyTable::new();
    play_cycle(&mut table, &["/opt/tool"], mapping(0x1000, 8), &[]);
    for _ in 0..4 {
        assert!(play_cycle(&mut table, &[], mapping(0x2000, 8), &[]).is_empty());
        assert!(table.lookup("/opt/tool").is_some());
    }
    let given_back = play_cycle(&mut table, &[], mapping(0x2000, 8), &[]);
    assert_eq!(
        given_back,
        vec![Release { path: "/opt/tool".to_string(), mapping: mapping(0x1000, 8) }]
    );
    assert_eq!(table.lookup("/opt/tool"), None);
}

#[test]
fn library_of_an_exited_process_is_released() {
    let mut table = ResidencyTable::new();
    let path = "/usr/lib/libc.so.6";

    // The first cycle reports the library: it is mapped, with its counter at zero.
    for line in cycle_lines(&vec![path.to_string()]) {
        match decode(line.strip_suffix('\n').unwrap()) {
            Message::PathReported(p) => {
                assert!(!table.observe(&p));
                assert!(table.install(&p, mapping(0x7f00_0000, 2_000_000)));
                assert_eq!(table.lookup(path).unwrap().last_seen_ago, 0);
            }
            Message::CycleEnded => {
                assert!(table.expired().is_empty());
                table.end_cycle(&Vec::new());
            }
        }
    }
    assert_eq!(table.lookup(path).unwrap().last_seen_ago, 1);

    // The process has exited: the next four cycles bring the marker only.
    for cycle in 2..=5u8 {
        let given_back = play_cycle(&mut table, &[], mapping(0x1000, 1), &[]);
        assert!(given_back.is_empty());
        assert_eq!(
            table.lookup(path),
            Some(Residency { mapping: mapping(0x7f00_0000, 2_000_000), last_seen_ago: cycle })
        );
    }

    // With the marker after that the entry is due: the mapping is given back
    // and the entry leaves in the same step.
    assert_eq!(
        table.expired(),
        vec![Release { path: path.to_string(), mapping: mapping(0x7f00_0000, 2_000_000) }]
    );
    let given_back = play_cycle(&mut table, &[], mapping(0x1000, 1), &[]);
    assert_eq!(
        given_back,
        vec![Release { path: path.to_string(), mapping: mapping(0x7f00_0000, 2_000_000) }]
    );
    assert_eq!(table.lookup(path), None);
    assert_eq!(table.len(), 0);
}

#[test]
fn cycles_unseen_leave_out_the_marker_of_the_report() {
    let mut table = ResidencyTable::new();
    table.install("/a", mapping(0x1000, 1));
    let mut seen = Vec::new();
    for _ in 0..7 {
        let held = table.lookup("/a").unwrap();
        seen.push((held.last_seen_ago, held.cycles_unseen()));
        table.end_cycle(&Vec::new());
    }
    assert_eq!(seen, vec![(0, 0), (1, 0), (2, 1), (3, 2), (4, 3), (5, 4), (5, 4)]);
}
