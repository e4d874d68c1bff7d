use memstapler::procfs::{examine, parse_pid, worth_reporting, Failure, Verdict};

#[test]
fn numbers_are_process_ids() {
    assert_eq!(parse_pid("1"), Some(1));
    assert_eq!(parse_pid("100"), Some(100));
    assert_eq!(parse_pid("4194304"), Some(4194304));
    assert_eq!(parse_pid("4294967295"), Some(u32::MAX));
    assert_eq!(parse_pid("007"), Some(7));
    assert_eq!(parse_pid("+42"), Some(42));
}

#[test]
fn other_names_are_not_processes() {
    for name in [
        "", "self", "thread-self", "sys", "cpuinfo", "12a", "a12", "1 2", " 12", "12 ", "-12",
        "+", "++1", "+-1", "1+", "0x10", "١٢", "1.5",
    ] {
        assert_eq!(parse_pid(name), None, "{:?}", name);
    }
}

#[test]
fn zero_is_no_process_id() {
    assert_eq!(parse_pid("0"), None);
    assert_eq!(parse_pid("000"), None);
    assert_eq!(parse_pid("+0"), None);
}

#[test]
fn numbers_past_the_range_are_not_process_ids() {
    assert_eq!(parse_pid("4294967296"), None);
    assert_eq!(parse_pid("99999999999"), None);
    assert_eq!(parse_pid("18446744073709551616"), None);
    assert_eq!(parse_pid("184467440737095516160000000000000000001"), None);
    assert_eq!(parse_pid("42949672950"), None);
    assert_eq!(parse_pid("00000000004294967295"), Some(u32::MAX));
}

#[test]
fn pid_parsing_agrees_with_std_on_positive_numbers() {
    let alphabet = ['0', '1', '9', '+', '-', 'x', ' '];
    let mut names = vec![String::new()];
    let mut from = 0;
    for _ in 0..5 {
        let upto = names.len();
        for i in from..upto {
            for c in alphabet {
                let mut longer = names[i].clone();
                longer.push(c);
                names.push(longer);
            }
        }
        from = upto;
    }
    for name in &names {
        let expected = name.parse::<u32>().ok().filter(|n| *n > 0);
        assert_eq!(parse_pid(name), expected, "{:?}", name);
    }
    for n in [1u64, 9, 10, 4294967294, 4294967295, 4294967296, 4294967300, 9999999999] {
        let name = n.to_string();
        assert_eq!(parse_pid(&name), name.parse::<u32>().ok());
    }
}

#[test]
fn only_a_missing_thing_goes_unreported() {
    assert!(!worth_reporting(Failure::NotFound));
    assert!(worth_reporting(Failure::Other));
}

#[test]
fn verdict_on_a_process() {
    let exe = Ok("/usr/bin/nginx".to_string());
    let own = Ok("/usr/local/bin/memstapler".to_string());
    let ns = Ok("mnt:[4026531840]".to_string());
    let me = "/usr/local/bin/memstapler";
    assert_eq!(examine(&exe, &ns, me), Verdict::Scan);
    assert_eq!(examine(&own, &ns, me), Verdict::OwnBinary);
    assert_eq!(examine(&Err(Failure::NotFound), &ns, me), Verdict::Vanished);
    assert_eq!(examine(&Err(Failure::Other), &ns, me), Verdict::ReportExe);
    assert_eq!(examine(&exe, &Err(Failure::NotFound), me), Verdict::Vanished);
    assert_eq!(examine(&exe, &Err(Failure::Other), me), Verdict::ReportNamespace);
    assert_eq!(examine(&own, &Err(Failure::Other), me), Verdict::ReportNamespace);
    assert_eq!(examine(&own, &Err(Failure::NotFound), me), Verdict::Vanished);
}

#[test]
fn executable_link_is_looked_at_first() {
    let me = "/usr/local/bin/memstapler";
    assert_eq!(
        examine(&Err(Failure::NotFound), &Err(Failure::Other), me),
        Verdict::Vanished
    );
    assert_eq!(
        examine(&Err(Failure::Other), &Err(Failure::NotFound), me),
        Verdict::ReportExe
    );
}
