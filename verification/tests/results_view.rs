use fqcn_rename::matched_file::{Line, MatchedFile};
use fqcn_rename::results_view::{add_match_to_scrollable, add_matches_to_scrollable, Row};
use fqcn_rename::scrollable::Scrollable;

fn files() -> Vec<MatchedFile> {
    vec![
        MatchedFile::new(
            "a/One.java",
            vec![
                Line::new(0, "package a;", vec![8..9]),
                Line::new(1, "", vec![]),
                Line::new(7, "One one;", vec![0..3]),
                Line::new(8, "}", vec![]),
            ],
        ),
        MatchedFile::new("b/Two.java", vec![Line::new(4, "two", vec![])]),
    ]
}

#[test]
fn test_rows_of_a_file() {
    let files = files();
    let mut window = Scrollable::new(0, 100);
    add_match_to_scrollable(&mut window, &files[0], false);
    assert_eq!(
        vec![
            Row::Heading {
                file_path: "a/One.java",
                lines: None
            },
            Row::Line {
                number: 1,
                parts: vec![(false, "package "), (true, "a"), (false, ";")]
            },
            Row::Line {
                number: 2,
                parts: vec![]
            },
            Row::Separator,
            Row::Line {
                number: 8,
                parts: vec![(true, "One"), (false, " one;")]
            },
            Row::Line {
                number: 9,
                parts: vec![(false, "}")]
            },
        ],
        window.get()
    );
}

#[test]
fn test_rows_of_files_in_a_window() {
    let files = files();
    let mut all = Scrollable::new(0, 100);
    add_matches_to_scrollable(&mut all, &files, true);
    let all = all.get();
    assert_eq!(9, all.len());
    assert_eq!(
        Row::Heading {
            file_path: "a/One.java",
            lines: Some(4)
        },
        all[0]
    );
    assert_eq!(Row::Blank, all[6]);
    assert_eq!(
        Row::Heading {
            file_path: "b/Two.java",
            lines: Some(1)
        },
        all[7]
    );
    assert_eq!(
        Row::Line {
            number: 5,
            parts: vec![(false, "two")]
        },
        all[8]
    );

    for offset in 0..11 {
        for height in 0..11 {
            let mut window = Scrollable::new(offset, height);
            add_matches_to_scrollable(&mut window, &files, true);
            let expected: Vec<&Row> = all.iter().skip(offset).take(height).collect();
            let rows = window.get();
            assert_eq!(expected, rows.iter().collect::<Vec<_>>());
        }
    }
}

#[test]
fn test_last_line_number_is_shown_as_it_is() {
    let file = MatchedFile::new("x", vec![Line::new(usize::MAX, "z", vec![])]);
    let mut window = Scrollable::new(1, 1);
    add_match_to_scrollable(&mut window, &file, false);
    assert_eq!(
        vec![Row::Line {
            number: usize::MAX,
            parts: vec![(false, "z")]
        }],
        window.get()
    );
}
