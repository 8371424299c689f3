use itertools::assert_equal;

use fqcn_rename::fqcn::Fqcn;
use fqcn_rename::fqcn_processor::process_matched_file_fqcn;
use fqcn_rename::matched_file::{Line, MatchedFile};

#[test]
fn fqcn_processor_test_works() {
    let fqcn = Fqcn::new("foo.bar.Baz").unwrap();

    let matches = vec![
        MatchedFile::new(
            "foo/bar/Baz.java",
            vec![
                Line::new(3, "package foo.bar", vec![0..15]),
                Line::new(4, "class Baz {};", vec![6..(6 + 3)]),
            ],
        ),
        MatchedFile::new(
            "foo/Quux.java",
            vec![
                Line::new(2, "import foo.bar.Baz", vec![7..(7 + 11)]),
                Line::new(
                    8,
                    "   Baz myBaz = new Baz()",
                    vec![3..(3 + 3), 19..(19 + 3)],
                ),
                Line::new(9, " new foo.bar.Baz(1, 2);", vec![5..(5 + 11)]),
            ],
        ),
    ];

    let matches = process_matched_file_fqcn(&fqcn, matches);
    assert_eq!(matches.len(), 2);

    assert_eq!("foo/bar/Baz.java", matches[0].file_path());
    assert_eq!(matches[0].lines().len(), 2);
    let mut lines = matches[0].lines().iter();
    assert_equal(
        [(false, "package "), (true, "foo.bar")],
        lines.next().unwrap().iter().into_iter().take(100),
    );
    assert_equal(
        [(false, "class "), (true, "Baz"), (false, " {};")],
        lines.next().unwrap().iter().into_iter().take(100),
    );
    assert_eq!(None, lines.next());

    assert_eq!("foo/Quux.java", matches[1].file_path());
    assert_eq!(matches[1].lines().len(), 3);
    let mut lines = matches[1].lines().iter();
    assert_equal(
        [(false, "import "), (true, "foo.bar.Baz")],
        lines.next().unwrap().iter().into_iter().take(100),
    );
    assert_equal(
        [
            (false, "   "),
            (true, "Baz"),
            (false, " myBaz = new "),
            (true, "Baz"),
            (false, "()"),
        ],
        lines.next().unwrap().iter().into_iter().take(100),
    );
    assert_equal(
        [(false, " new "), (true, "foo.bar.Baz"), (false, "(1, 2);")],
        lines.next().unwrap().iter().into_iter().take(100),
    );
    assert_eq!(None, lines.next());
}

#[test]
fn test_keeps_right_import() {
    let fqcn = Fqcn::new("foo.bar.Baz").unwrap();
    let matches = process_matched_file_fqcn(
        &fqcn,
        vec![MatchedFile::new(
            "foo/RightBaz.java",
            vec![Line::new(2, "import foo.bar.Baz;", vec![7..(7 + 11)])],
        )],
    );

    assert_eq!(1, matches.len());
    let matched_file = &matches[0];
    let mut lines = matched_file.lines().iter();

    assert_equal(
        [(false, "import "), (true, "foo.bar.Baz"), (false, ";")],
        lines.next().unwrap().iter().into_iter().take(100),
    );
    assert_eq!(None, lines.next());
}

#[test]
fn test_filters_wrong_import() {
    let fqcn = Fqcn::new("foo.bar.Baz").unwrap();
    let matches = process_matched_file_fqcn(
        &fqcn,
        vec![MatchedFile::new(
            "foo/WrongBaz.java",
            vec![
                Line::new(2, "import com.other.Baz;", vec![7..(7 + 13)]),
                Line::new(8, "Baz b;", vec![0..3]),
            ],
        )],
    );

    assert_eq!(vec![] as Vec<MatchedFile>, matches);
}
