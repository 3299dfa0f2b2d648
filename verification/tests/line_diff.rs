use mor_website_ui::line_diff::line_diff;

#[test]
fn diff_marks_changed_added_and_kept_lines() {
    let old = "a\nb\nc\n";
    let new = "a\nB\nc\nd\n";
    let got = line_diff(old, new);
    let expect = vec![
        (' ', "a".to_string()),
        ('-', "b".to_string()),
        ('+', "B".to_string()),
        (' ', "c".to_string()),
        ('+', "d".to_string()),
    ];
    assert_eq!(got, expect);

    assert!(line_diff(old, old).iter().all(|(t, _)| *t == ' '));
    assert!(line_diff("", "x\ny").iter().all(|(t, _)| *t == '+'));
}

fn sides(d: &[(char, String)]) -> (Vec<String>, Vec<String>) {
    let old = d.iter().filter(|(t, _)| *t != '+').map(|(_, l)| l.clone()).collect();
    let new = d.iter().filter(|(t, _)| *t != '-').map(|(_, l)| l.clone()).collect();
    (old, new)
}

#[test]
fn diff_replays_both_texts() {
    let old = "x\ny\r\nz\nw\n";
    let new = "y\nq\nw\nx";
    let d = line_diff(old, new);
    let (o, n) = sides(&d);
    assert_eq!(o, old.lines().map(|l| l.to_string()).collect::<Vec<_>>());
    assert_eq!(n, new.lines().map(|l| l.to_string()).collect::<Vec<_>>());
}

#[test]
fn diff_keeps_a_longest_common_subsequence() {
    let d = line_diff("a\nb\nc\nd", "b\nd\na");
    assert_eq!(d.iter().filter(|(t, _)| *t == ' ').count(), 2);
    let d = line_diff("1\n2\n3\n4\n5", "0\n2\n4\n5\n6");
    assert_eq!(d.iter().filter(|(t, _)| *t == ' ').count(), 3);
}

#[test]
fn identical_and_empty_texts() {
    let d = line_diff("p\nq\n", "p\nq\n");
    assert_eq!(d, vec![(' ', "p".to_string()), (' ', "q".to_string())]);
    let d = line_diff("", "x\ny");
    assert_eq!(d, vec![('+', "x".to_string()), ('+', "y".to_string())]);
    assert!(line_diff("", "").is_empty());
}
