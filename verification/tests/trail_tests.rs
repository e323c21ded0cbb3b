use runtime_diff::trail::Trail;

#[test]
fn trail_keeps_recent_pushes_within_bound() {
    let mut t = Trail::new(3);
    let lines = ["one", "two", "three", "four", "five"];
    for (k, line) in lines.iter().enumerate() {
        t.push(line.to_string());
        let snap = t.snapshot();
        assert!(snap.len() <= 3);
        let start = if k + 1 > 3 { k + 1 - 3 } else { 0 };
        let expected: Vec<String> = lines[start..k + 1].iter().map(|s| s.to_string()).collect();
        assert_eq!(snap, expected);
    }
}

#[test]
fn trail_under_capacity_keeps_everything() {
    let mut t = Trail::new(32);
    t.push("a".to_string());
    t.push("b".to_string());
    assert_eq!(t.snapshot(), vec!["a".to_string(), "b".to_string()]);
}

#[test]
fn trail_zero_capacity_stays_empty() {
    let mut t = Trail::new(0);
    t.push("a".to_string());
    t.push("b".to_string());
    assert!(t.snapshot().is_empty());
}

#[test]
fn trail_exact_capacity_evicts_oldest_first() {
    let mut t = Trail::new(2);
    t.push("a".to_string());
    t.push("b".to_string());
    t.push("c".to_string());
    assert_eq!(t.snapshot(), vec!["b".to_string(), "c".to_string()]);
}
