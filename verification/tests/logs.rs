use p2p_file_deployer::commands::{log_needs_rotation, log_tail};

#[test]
fn log_tail_keeps_last_lines() {
    let content = "a\nb\r\nc\nd\n";
    assert_eq!(log_tail(content, Some(2)), "c\nd");
    assert_eq!(log_tail(content, Some(10)), "a\nb\nc\nd");
    assert_eq!(log_tail(content, Some(0)), "");
    assert_eq!(log_tail(content, None), "a\nb\nc\nd");
}

#[test]
fn log_tail_default_is_500() {
    let mut content = String::new();
    for i in 0..600 {
        content.push_str(&format!("line {}\n", i));
    }
    let tail = log_tail(&content, None);
    assert_eq!(tail.lines().count(), 500);
    assert!(tail.starts_with("line 100\n"));
    assert!(tail.ends_with("line 599"));
}

#[test]
fn log_tail_unfinished_last_line_and_blank_lines() {
    assert_eq!(log_tail("x\n\ny", Some(2)), "\ny");
    assert_eq!(log_tail("", Some(3)), "");
    assert_eq!(log_tail("only\r", None), "only\r");
}

#[test]
fn log_rotation_threshold() {
    assert!(!log_needs_rotation(0));
    assert!(!log_needs_rotation(5 * 1024 * 1024));
    assert!(log_needs_rotation(5 * 1024 * 1024 + 1));
}
