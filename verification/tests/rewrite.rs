use fqcn_rename::matched_file::{Line, MatchedFile};
use fqcn_rename::rewrite::{backup_path, rewrite_contents, RewriteError};

#[test]
fn test_rewrite_replaces_one_line() {
    let contents = "package foo.bar;\n\nclass Baz {\n}\n";
    let replacement = MatchedFile::new(
        "foo/bar/Baz.java",
        vec![Line::new(2, "class Quux {\n", vec![6..10])],
    );
    let done = rewrite_contents(contents, &replacement).unwrap();
    assert_eq!("package foo.bar;\n\nclass Quux {\n}\n", done.contents);
    assert_eq!(1, done.num_replacements);
    assert_eq!(
        contents.lines().count(),
        done.contents.lines().count()
    );
}

#[test]
fn test_rewrite_replaces_several_lines() {
    let contents = "a\nbb\nccc\ndddd";
    let replacement = MatchedFile::new(
        "x",
        vec![
            Line::new(0, "A1\n", vec![0..1, 1..2]),
            Line::new(1, "bb\n", vec![]),
            Line::new(3, "DDD", vec![0..3]),
        ],
    );
    let done = rewrite_contents(contents, &replacement).unwrap();
    assert_eq!("A1\nbb\nccc\nDDD", done.contents);
    assert_eq!(3, done.num_replacements);
}

#[test]
fn test_rewrite_without_lines_changes_nothing() {
    let done = rewrite_contents("a\nb\n", &MatchedFile::new("x", vec![])).unwrap();
    assert_eq!("a\nb\n", done.contents);
    assert_eq!(0, done.num_replacements);
}

#[test]
fn test_rewrite_line_out_of_range() {
    let replacement = MatchedFile::new("x", vec![Line::new(7, "z\n", vec![])]);
    assert_eq!(
        Some(RewriteError::LineOutOfRange),
        rewrite_contents("a\nb\n", &replacement).err()
    );
    let last = MatchedFile::new("x", vec![Line::new(usize::MAX, "z\n", vec![])]);
    assert_eq!(
        Some(RewriteError::LineOutOfRange),
        rewrite_contents("a\nb\n", &last).err()
    );
}

#[test]
fn test_backup_path() {
    assert_eq!(
        Ok("foo/Bar.java.bak".to_owned()),
        backup_path("foo/Bar.java", false)
    );
    assert_eq!(
        Err(RewriteError::BackupExists),
        backup_path("foo/Bar.java", true)
    );
}
