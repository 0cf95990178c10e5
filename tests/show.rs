use ruster_env::{show_listing, sort_by_key, EnvVar};

fn var(key: &str, value: &str) -> EnvVar {
    EnvVar { key: key.to_string(), value: value.to_string() }
}

#[test]
fn test_show_list_cmd() {
    let env = vec![var("PATH", "/bin"), var("RUSTER_TEST_VAR", "TestValue")];
    let lines = show_listing(&env);
    assert!(lines.iter().any(|l| l.contains("System Environment Variables")));
    assert!(lines.iter().any(|l| l.contains("RUSTER_TEST_VAR")));
    assert!(lines.iter().any(|l| l.contains("TestValue")));
}

#[test]
fn listing_is_sorted_aligned_and_skips_drive_entries() {
    let env = vec![var("LONG", "x"), var("=C:", "C:\\"), var("A", "1")];
    let lines = show_listing(&env);
    assert_eq!(
        lines,
        vec![
            "",
            "\u{1f5a5}\u{fe0f}  System Environment Variables:",
            "---------",
            "A     1",
            "LONG  x",
            "",
        ]
    );
}

#[test]
fn listing_width_counts_bytes_and_padding_counts_chars() {
    let env = vec![var("\u{e9}", "v"), var("b", "w")];
    let lines = show_listing(&env);
    assert_eq!(lines[2], "-------");
    assert_eq!(lines[3], "b   w");
    assert_eq!(lines[4], "\u{e9}   v");
}

#[test]
fn empty_listing_line() {
    assert_eq!(show_listing(&Vec::new()), vec!["(No environment variables found)"]);
    assert_eq!(show_listing(&vec![var("=X", "y")]), vec!["(No environment variables found)"]);
}

#[test]
fn sort_is_by_key_and_stable() {
    let vars = vec![var("b", "1"), var("a", "2"), var("b", "0"), var("B", "3"), var("", "4")];
    let sorted = sort_by_key(&vars);
    let got: Vec<(&str, &str)> = sorted.iter().map(|v| (v.key.as_str(), v.value.as_str())).collect();
    assert_eq!(got, vec![("", "4"), ("B", "3"), ("a", "2"), ("b", "1"), ("b", "0")]);
}
