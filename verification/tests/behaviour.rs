use itertools::assert_equal;

use fqcn_rename::fqcn::Fqcn;
use fqcn_rename::fqcn_processor::{
    classify_submatch, process_matched_file_fqcn, process_matched_file_fqcn_with, MatchType,
    Strictness,
};
use fqcn_rename::fqcn_replacer::{match_type, replacement_for, update_replacements, Renaming};
use fqcn_rename::matched_file::{Line, LinePartsIter, MatchedFile};
use fqcn_rename::text::{contains, find, same_text, slice, starts_with};

fn joined(line: &Line) -> String {
    line.iter().into_iter().map(|(_, text)| text).collect()
}

#[test]
fn test_fqcn_is_package_dot_ident() {
    for value in ["foo.bar.Baz", "a1.B", "com.example.Foo_Bar9", "ab.cd..E", "x.y.Zé"] {
        let fqcn = Fqcn::new(value).unwrap();
        assert_eq!(value, format!("{}.{}", fqcn.package(), fqcn.ident()));
        assert_eq!(
            value,
            format!("{}{}", fqcn.package_with_trailing(), fqcn.ident())
        );
        assert_eq!(fqcn, fqcn.clone());
    }
    let fqcn = Fqcn::new("foo.bar.Baz").unwrap();
    assert_eq!("foo.bar.", fqcn.package_with_trailing());
}

#[test]
fn test_identifier_alone_is_a_name_without_package() {
    let fqcn = Fqcn::new("Baz").unwrap();
    assert_eq!("Baz", fqcn.value());
    assert_eq!("Baz", fqcn.ident());
    assert_eq!("", fqcn.package());
    assert_eq!("", fqcn.package_with_trailing());
    assert!(!fqcn.has_package());
    assert!(Fqcn::new("foo.bar.Baz").unwrap().has_package());
    for value in ["B", "Baz_9", "BazÄ"] {
        let fqcn = Fqcn::new(value).unwrap();
        assert_eq!(value, fqcn.ident());
        assert_eq!("", fqcn.package());
        assert_eq!(
            value,
            format!("{}{}", fqcn.package_with_trailing(), fqcn.ident())
        );
    }
    assert_eq!(
        Fqcn::new("Baz"),
        Fqcn::from_captures("Baz", &vec![Some(0..3), None, None, Some(0..3)])
    );
    assert_eq!(
        None,
        Fqcn::from_captures("xBaz", &vec![Some(0..4), None, None, Some(1..4)])
    );
    assert_eq!(
        None,
        Fqcn::from_captures("Baz", &vec![Some(0..3), None, None, None])
    );
}

#[test]
fn test_name_without_package_in_files() {
    let fqcn = Fqcn::new("Baz").unwrap();
    assert_eq!(
        (MatchType::FqcnFull, 4..7),
        classify_submatch(&fqcn, false, "new Baz()")
    );
    assert_eq!(
        (MatchType::FqcnFull, 8..11),
        classify_submatch(&fqcn, true, "package Baz")
    );
    assert_eq!(
        (MatchType::Arbitrary, 0..5),
        classify_submatch(&fqcn, false, "other")
    );
    assert_eq!(MatchType::FqcnIdent, match_type(&fqcn, "Baz"));
    assert_eq!(MatchType::Arbitrary, match_type(&fqcn, "x"));
    let files = || {
        vec![
            MatchedFile::new(
                "a/Declares.java",
                vec![
                    Line::new(0, "package foo;", vec![0..12]),
                    Line::new(1, "Baz b;", vec![0..3]),
                ],
            ),
            MatchedFile::new(
                "a/Imports.java",
                vec![Line::new(0, "import foo.Baz;", vec![7..14])],
            ),
        ]
    };
    let kept = process_matched_file_fqcn(&fqcn, files());
    assert_eq!(1, kept.len());
    assert_eq!("a/Imports.java", kept[0].file_path());
    assert_eq!(&vec![11..14], kept[0].lines()[0].submatches());
}

#[test]
fn test_what_is_no_fqcn() {
    for value in [
        "",
        "foo",
        "baz",
        "Baz.",
        "Baz-1",
        "Baz Smaz",
        "foo.bar",
        "foo.bar.",
        "foo.bar.baz",
        "foo.Bar.baz",
        "foo.bar.Baz.Smaz",
        "foo.bar.Baz;",
        "foo.bar.Baz ",
        " foo.bar.Baz",
        ".foo.Baz",
        "a.B",
        "Foo.bar.Baz",
        "foo.bar.Baz\n",
    ] {
        assert_eq!(None, Fqcn::new(value), "{:?}", value);
    }
}

#[test]
fn test_from_captures_checks_the_groups() {
    let fits = vec![Some(0..12), Some(0..8), Some(0..7), Some(8..11)];
    assert_eq!(
        Fqcn::new("foo.bar.Baz"),
        Fqcn::from_captures("foo.bar.Baz", &fits)
    );
    assert!(Fqcn::from_captures("foo.bar.Baz", &fits).is_some());
    assert_eq!(None, Fqcn::from_captures("foo.bar.Baz", &vec![]));
    assert_eq!(
        None,
        Fqcn::from_captures("foo.bar.Baz", &vec![Some(0..12), None, None, Some(8..11)])
    );
    assert_eq!(
        None,
        Fqcn::from_captures("foo.bar.Baz", &vec![Some(0..12), None, Some(0..7), None])
    );
    assert_eq!(
        None,
        Fqcn::from_captures(
            "foo.bar.Baz",
            &vec![Some(0..12), None, Some(0..3), Some(4..11)]
        )
    );
    assert_eq!(
        None,
        Fqcn::from_captures(
            "foo.bar.Baz",
            &vec![Some(0..12), None, Some(0..7), Some(8..10)]
        )
    );
    assert_eq!(
        None,
        Fqcn::from_captures(
            "foo.bar.Baz",
            &vec![Some(0..12), None, Some(1..7), Some(8..11)]
        )
    );
    assert_eq!(
        None,
        Fqcn::from_captures(
            "foo.bar.Baz",
            &vec![Some(0..12), None, Some(0..70), Some(80..110)]
        )
    );
}

#[test]
fn test_spans_join_to_the_text() {
    let lines = [
        Line::new(0, "", vec![]),
        Line::new(0, "0123456789", vec![]),
        Line::new(0, "0123456789", vec![0..10]),
        Line::new(0, "0123456789", vec![0..1, 1..2, 5..7]),
        Line::new(0, "größer als Bäz", vec![0..7, 13..16]),
    ];
    for line in lines.iter() {
        assert_eq!(line.value(), joined(line));
        let parts = line.iter();
        assert!(parts.iter().all(|(_, text)| !text.is_empty()));
        assert!(parts.windows(2).all(|pair| pair[0].0 || pair[1].0));
    }
    assert!(Line::new(0, "", vec![]).iter().is_empty());
}

#[test]
fn test_walk_step_by_step() {
    let line = Line::new(0, "0123456789", vec![3..6, 8..10]);
    let mut walk = LinePartsIter::from_line(&line);
    assert_eq!(Some((false, "012")), walk.next());
    assert_eq!(Some((true, "345")), walk.next());
    assert_eq!(Some((false, "67")), walk.next());
    assert_eq!(Some((true, "89")), walk.next());
    assert_eq!(None, walk.next());
    assert_eq!(None, walk.next());
}

#[test]
fn test_check_invariants() {
    assert!(Line::check_invariants("0123456789", &vec![]));
    assert!(Line::check_invariants("0123456789", &vec![0..4, 4..10]));
    assert!(!Line::check_invariants("0123456789", &vec![2..2]));
    assert!(!Line::check_invariants("0123456789", &vec![5..3]));
    assert!(!Line::check_invariants("0123456789", &vec![0..5, 4..8]));
    assert!(!Line::check_invariants("0123456789", &vec![6..8, 1..3]));
    assert!(!Line::check_invariants("0123456789", &vec![8..11]));
    assert!(!Line::check_invariants("äb", &vec![1..3]));
    assert!(Line::check_invariants("äb", &vec![0..2, 2..3]));
}

#[test]
fn test_replace_leaves_valid_submatches() {
    let line = Line::new(7, "ab cd ef gh", vec![0..2, 3..5, 6..8, 9..11]);
    let replaced = line.replace_with(&vec![
        "".to_owned(),
        "xxxx".to_owned(),
        "".to_owned(),
        "ü".to_owned(),
    ]);
    assert_eq!(7, replaced.num());
    assert_eq!(" xxxx  ü", replaced.value());
    assert_eq!(&vec![1..5, 7..9], replaced.submatches());
    assert_eq!(2, replaced.num_submatches());
    assert!(Line::check_invariants(
        replaced.value(),
        replaced.submatches()
    ));
    assert_equal(
        [(false, " "), (true, "xxxx"), (false, "  "), (true, "ü")],
        replaced.iter().into_iter(),
    );
    assert_eq!(vec!["ab", "cd", "ef", "gh"], line.matched_texts());
}

#[test]
fn test_replace_shifts_later_submatches() {
    let line = Line::new(0, "aa.bb.cc", vec![0..2, 3..5, 6..8]);
    let longer = line.replace(|text| format!("<{}>", text));
    assert_eq!("<aa>.<bb>.<cc>", longer.value());
    assert_eq!(&vec![0..4, 5..9, 10..14], longer.submatches());
    let shorter = line.replace(|text| text[..1].to_owned());
    assert_eq!("a.b.c", shorter.value());
    assert_eq!(&vec![0..1, 2..3, 4..5], shorter.submatches());
}

#[test]
fn test_adjust_to_nothing_leaves_a_context_line() {
    let mut line = Line::new(3, "foo bar baz", vec![0..4, 4..11]);
    line.adjust_submatches(|_| 0..0);
    assert_eq!(Line::new(3, "foo bar baz", vec![]), line);
    assert_equal([(false, "foo bar baz")], line.iter().into_iter());

    let mut line = Line::new(3, "foo bar baz", vec![0..4, 4..11]);
    line.adjust_submatches(|_| 5..2);
    assert_eq!(0, line.num_submatches());

    let mut line = Line::new(3, "foo bar baz", vec![0..4, 4..11]);
    line.adjust_submatches_to(&vec![1..3, 0..0]);
    assert_eq!(&vec![1..3], line.submatches());
}

#[test]
fn test_file_replace() {
    let file = MatchedFile::new(
        "a/B.java",
        vec![
            Line::new(0, "one two", vec![0..3, 4..7]),
            Line::new(1, "context", vec![]),
            Line::new(5, "two", vec![0..3]),
        ],
    );
    let upper = file.replace(|text| text.to_uppercase());
    assert_eq!(
        MatchedFile::new(
            "a/B.java",
            vec![
                Line::new(0, "ONE TWO", vec![0..3, 4..7]),
                Line::new(1, "context", vec![]),
                Line::new(5, "TWO", vec![0..3]),
            ],
        ),
        upper
    );
    let with = file.replace_with(&vec![
        vec!["1".to_owned(), "".to_owned()],
        vec![],
        vec!["zwei".to_owned()],
    ]);
    assert_eq!("a/B.java", with.file_path());
    assert_eq!(
        &vec![
            Line::new(0, "1 ", vec![0..1]),
            Line::new(1, "context", vec![]),
            Line::new(5, "zwei", vec![0..4]),
        ],
        with.lines()
    );
    assert_eq!(MatchedFile::new("", vec![]), MatchedFile::default());
}

#[test]
fn test_lines_mut() {
    let mut file = MatchedFile::new("a", vec![Line::new(0, "one two", vec![0..3])]);
    file.lines_mut()[0].adjust_submatches_to(&vec![1..2]);
    file.lines_mut().push(Line::new(1, "x", vec![]));
    assert_eq!(
        MatchedFile::new(
            "a",
            vec![Line::new(0, "one two", vec![1..2]), Line::new(1, "x", vec![])]
        ),
        file
    );
}

#[test]
fn test_classify_submatch() {
    let fqcn = Fqcn::new("foo.bar.Baz").unwrap();
    assert_eq!(
        (MatchType::FqcnFull, 4..15),
        classify_submatch(&fqcn, false, "new foo.bar.Baz(foo.bar.Baz)")
    );
    assert_eq!(
        (MatchType::Package, 8..15),
        classify_submatch(&fqcn, false, "package foo.bar;")
    );
    assert_eq!(
        (MatchType::Package, 7..14),
        classify_submatch(&fqcn, true, "import foo.bar.Baz;")
    );
    assert_eq!(
        (MatchType::FqcnFull, 7..18),
        classify_submatch(&fqcn, false, "import foo.bar.Baz;")
    );
    assert_eq!(
        (MatchType::FqcnIdent, 1..4),
        classify_submatch(&fqcn, false, " Baz Baz")
    );
    assert_eq!(
        (MatchType::FqcnIdent, 1..4),
        classify_submatch(&fqcn, true, " Baz Baz")
    );
    assert_eq!(
        (MatchType::Arbitrary, 0..5),
        classify_submatch(&fqcn, false, "other")
    );
}

#[test]
fn test_strictness() {
    let fqcn = Fqcn::new("foo.bar.Baz").unwrap();
    let only_full = || {
        vec![MatchedFile::new(
            "a/Use.java",
            vec![Line::new(9, " new foo.bar.Baz(1, 2);", vec![5..16])],
        )]
    };
    assert!(process_matched_file_fqcn(&fqcn, only_full()).is_empty());
    assert!(
        process_matched_file_fqcn_with(&fqcn, only_full(), Strictness::Corroborated).is_empty()
    );
    assert_eq!(
        1,
        process_matched_file_fqcn_with(&fqcn, only_full(), Strictness::Lenient).len()
    );

    let only_package = || {
        vec![MatchedFile::new(
            "foo/bar/Other.java",
            vec![Line::new(0, "package foo.bar;", vec![0..16])],
        )]
    };
    assert!(process_matched_file_fqcn(&fqcn, only_package()).is_empty());
    assert!(
        process_matched_file_fqcn_with(&fqcn, only_package(), Strictness::Lenient).is_empty()
    );

    let import_in_context = || {
        vec![MatchedFile::new(
            "a/Use.java",
            vec![
                Line::new(0, "import foo.bar.Baz;", vec![]),
                Line::new(1, "Baz b;", vec![0..3]),
            ],
        )]
    };
    assert!(process_matched_file_fqcn(&fqcn, import_in_context()).is_empty());
}

#[test]
fn test_keeps_what_is_borne_out() {
    let fqcn = Fqcn::new("foo.bar.Baz").unwrap();
    let kept = process_matched_file_fqcn(
        &fqcn,
        vec![
            MatchedFile::new(
                "foo/WrongBaz.java",
                vec![
                    Line::new(0, "import com.other.Baz;", vec![7..20]),
                    Line::new(1, "Baz b;", vec![0..3]),
                ],
            ),
            MatchedFile::new(
                "foo/bar/Baz.java",
                vec![
                    Line::new(0, "package foo.bar", vec![0..15]),
                    Line::new(1, "class Baz {};", vec![6..9]),
                ],
            ),
        ],
    );
    assert_eq!(1, kept.len());
    assert_eq!("foo/bar/Baz.java", kept[0].file_path());
    assert_eq!(&vec![8..15], kept[0].lines()[0].submatches());
    assert_eq!(&vec![6..9], kept[0].lines()[1].submatches());
}

#[test]
fn test_match_type_and_replacement() {
    let find = Fqcn::new("foo.bar.Baz").unwrap();
    let with = Fqcn::new("net.other.Quux").unwrap();
    assert_eq!(MatchType::FqcnIdent, match_type(&find, "Baz"));
    assert_eq!(MatchType::FqcnFull, match_type(&find, "foo.bar.Baz"));
    assert_eq!(MatchType::Package, match_type(&find, "foo.bar"));
    assert_eq!(MatchType::Arbitrary, match_type(&find, "foo.bar."));
    assert_eq!("Quux", replacement_for(&find, &with, "Baz"));
    assert_eq!("net.other.Quux", replacement_for(&find, &with, "foo.bar.Baz"));
    assert_eq!("net.other", replacement_for(&find, &with, "foo.bar"));
    assert_eq!("other", replacement_for(&find, &with, "other"));
}

fn found_files() -> Vec<MatchedFile> {
    vec![
        MatchedFile::new(
            "foo/bar/Baz.java",
            vec![
                Line::new(0, "package foo.bar;\n", vec![8..15]),
                Line::new(1, "\n", vec![]),
                Line::new(2, "class Baz {};\n", vec![6..9]),
            ],
        ),
        MatchedFile::new(
            "foo/Quux.java",
            vec![Line::new(4, "import foo.bar.Baz;\n", vec![7..18])],
        ),
    ]
}

#[test]
fn test_update_replacements_renames_parts() {
    let replaced = update_replacements(&found_files(), "foo.bar.Baz", "net.other.Quux");
    assert_eq!(
        vec![
            MatchedFile::new(
                "foo/bar/Baz.java",
                vec![
                    Line::new(0, "package net.other;\n", vec![8..17]),
                    Line::new(1, "\n", vec![]),
                    Line::new(2, "class Quux {};\n", vec![6..10]),
                ],
            ),
            MatchedFile::new(
                "foo/Quux.java",
                vec![Line::new(4, "import net.other.Quux;\n", vec![7..21])],
            ),
        ],
        replaced
    );
}

#[test]
fn test_update_replacements_without_a_new_name() {
    assert_eq!(
        found_files(),
        update_replacements(&found_files(), "foo.bar.Baz", "not a name")
    );
    assert_eq!(
        found_files(),
        update_replacements(&found_files(), "foo.bar.Baz", "")
    );
}

#[test]
fn test_update_replacements_of_an_identifier() {
    let found = vec![MatchedFile::new(
        "a.txt",
        vec![Line::new(0, "let old = old + 1;", vec![4..7, 10..13])],
    )];
    assert_eq!(
        vec![MatchedFile::new(
            "a.txt",
            vec![Line::new(0, "let fresh = fresh + 1;", vec![4..9, 12..17])],
        )],
        update_replacements(&found, "old", "fresh")
    );
    assert_eq!(found, update_replacements(&found, "old", ""));
    let capital = vec![MatchedFile::new(
        "a.txt",
        vec![Line::new(0, "new Old()", vec![4..7])],
    )];
    assert_eq!(
        vec![MatchedFile::new(
            "a.txt",
            vec![Line::new(0, "new net.other.Quux()", vec![4..18])],
        )],
        update_replacements(&capital, "Old", "net.other.Quux")
    );
    assert!(matches!(
        Renaming::chosen_for("Old", "Fresh"),
        Renaming::Literal(text) if text == "Fresh"
    ));
    assert!(matches!(
        Renaming::chosen_for("old", "fresh"),
        Renaming::Literal(text) if text == "fresh"
    ));
    assert!(matches!(
        Renaming::chosen_for("foo.bar.Baz", "x"),
        Renaming::Parts { find, replacement } if find == replacement
    ));
}

#[test]
fn test_text_search() {
    assert_eq!(Some(4), find("new foo.bar.Baz foo", "foo"));
    assert_eq!(Some(0), find("abc", ""));
    assert_eq!(Some(0), find("", ""));
    assert_eq!(None, find("ab", "abc"));
    assert_eq!(None, find("abab", "bb"));
    assert_eq!(Some(3), find("öbä", "ä"));
    assert_eq!(Some(1), find("aab", "ab"));
    assert!(starts_with("package foo", "package "));
    assert!(!starts_with("pack", "package "));
    assert!(!starts_with(" package ", "package "));
    assert!(contains("import foo.bar.Baz;", "foo.bar"));
    assert!(!contains("import foo.bar.Baz;", "foo.baz"));
    assert!(same_text("abc", "abc"));
    assert!(!same_text("abc", "abd"));
    assert!(!same_text("abc", "ab"));
    assert_eq!("är", slice("Bär", 1, 4));
    assert_eq!("", slice("Bär", 4, 4));
}
