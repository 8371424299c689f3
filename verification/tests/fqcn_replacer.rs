use fqcn_rename::fqcn::Fqcn;
use fqcn_rename::fqcn_processor::{process_matched_file_fqcn, MatchType};
use fqcn_rename::fqcn_replacer::match_type;
use fqcn_rename::matched_file::{Line, MatchedFile};

// The one match of a line: what stands before it, the match, what follows.
fn before_middle_after(line: &Line) -> (String, String, String) {
    assert_eq!(1, line.num_submatches());
    let range = line.submatches()[0].clone();
    let value = line.value();
    (
        value[..range.start].to_owned(),
        value[range.clone()].to_owned(),
        value[range.end..].to_owned(),
    )
}

fn assert_bma(fqcn: &Fqcn, kind: MatchType, before: &str, middle: &str, after: &str, line: &Line) {
    let (b, m, a) = before_middle_after(line);
    assert_eq!(kind, match_type(fqcn, &m));
    assert_eq!(before, b);
    assert_eq!(middle, m);
    assert_eq!(after, a);
}

#[test]
fn fqcn_replacer_test_works() {
    let fqcn = Fqcn::new("foo.bar.Baz").unwrap();
    assert_eq!("foo.bar", fqcn.package());

    let matches = vec![
        MatchedFile::new(
            "foo/bar/Baz.java",
            vec![
                Line::new(3, "package foo.bar;", vec![0..16]),
                Line::new(4, "class Baz {};", vec![6..(6 + 3)]),
            ],
        ),
        MatchedFile::new(
            "foo/Quux.java",
            vec![
                Line::new(2, "import foo.bar.Baz;", vec![7..(7 + 11)]),
                Line::new(8, "   Baz myBaz = new Baz()", vec![3..(3 + 3)]),
                Line::new(8, " new foo.bar.Baz(1, 2);", vec![5..(5 + 11)]),
            ],
        ),
    ];

    let matches = process_matched_file_fqcn(&fqcn, matches);
    assert_eq!(matches.len(), 2);

    assert_eq!("foo/bar/Baz.java", matches[0].file_path());
    assert_eq!(matches[0].lines().len(), 2);

    assert_bma(
        &fqcn,
        MatchType::Package,
        "package ",
        "foo.bar",
        ";",
        &matches[0].lines()[0],
    );
    assert_bma(
        &fqcn,
        MatchType::FqcnIdent,
        "class ",
        "Baz",
        " {};",
        &matches[0].lines()[1],
    );

    assert_eq!("foo/Quux.java", matches[1].file_path());
    assert_eq!(matches[1].lines().len(), 3);

    assert_bma(
        &fqcn,
        MatchType::FqcnFull,
        "import ",
        "foo.bar.Baz",
        ";",
        &matches[1].lines()[0],
    );
    assert_bma(
        &fqcn,
        MatchType::FqcnIdent,
        "   ",
        "Baz",
        " myBaz = new Baz()",
        &matches[1].lines()[1],
    );
    assert_bma(
        &fqcn,
        MatchType::FqcnFull,
        " new ",
        "foo.bar.Baz",
        "(1, 2);",
        &matches[1].lines()[2],
    );
}
