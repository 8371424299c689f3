use fqcn_rename::found_match::FoundMatch;

#[test]
fn test_matching_lines() {
    let found = FoundMatch {
        file_path: "a/B.java".to_owned(),
        line_number: 2,
        start: 1,
        end: 3,
        context: vec![
            (1, 0..0, "before".to_owned()),
            (2, 1..3, "match".to_owned()),
            (3, 4..4, "after".to_owned()),
            (4, 0..1, "again".to_owned()),
        ],
    };
    assert_eq!(vec!["match", "again"], found.matching_lines());
    assert!(FoundMatch::default().matching_lines().is_empty());
}
