use std::ops::Range;

use itertools::assert_equal;

use fqcn_rename::matched_file::Line;

fn new_line(value: &str, matches: Vec<Range<usize>>) -> Line {
    Line::new(0, value, matches)
}

#[test]
fn test_line_iter() {
    assert_equal(
        [(false, "0123456789")],
        new_line("0123456789", vec![]).iter().into_iter().take(100),
    );

    assert_equal(
        [(true, "0123456789")],
        new_line("0123456789", vec![0..10]).iter().into_iter().take(100),
    );

    assert_equal(
        [(false, "01234"), (true, "56789")],
        new_line("0123456789", vec![5..10]).iter().into_iter().take(100),
    );

    assert_equal(
        [(true, "01234"), (false, "56789")],
        new_line("0123456789", vec![0..5]).iter().into_iter().take(100),
    );

    assert_equal(
        [(true, "01234"), (false, "567"), (true, "89")],
        new_line("0123456789", vec![0..5, 8..10]).iter().into_iter().take(100),
    );

    assert_equal(
        [(false, "01234"), (true, "567"), (false, "89")],
        new_line("0123456789", vec![5..8]).iter().into_iter().take(100),
    );

    assert_equal(
        [(false, "012"), (true, "345"), (false, "67"), (true, "89")],
        new_line("0123456789", vec![3..6, 8..10]).iter().into_iter().take(100),
    );
}

#[test]
fn test_adjust_submatches() {
    // [foo ][bar baz] =>
    // [foo] bar [baz]
    let mut line = new_line("foo bar baz", vec![0..4, 4..11]);

    assert_equal(
        [(true, "foo "), (true, "bar baz")],
        line.iter().into_iter().take(100),
    );

    line.adjust_submatches(|submatch| {
        if submatch == "foo " {
            0..3
        } else if submatch == "bar baz" {
            4..7
        } else {
            0..submatch.len()
        }
    });

    assert_equal(
        [(true, "foo"), (false, " bar "), (true, "baz")],
        line.iter().into_iter().take(100),
    );
}

#[test]
fn test_drop_empty_submatches() {
    let mut line = new_line("foo bar baz", vec![0..4, 4..11]);
    line.adjust_submatches(|submatch| if submatch == "foo " { 0..3 } else { 0..0 });

    assert_equal(
        [(true, "foo"), (false, " bar baz")],
        line.iter().into_iter().take(100),
    );
}

#[test]
fn test_replace_shortens() {
    let line = new_line("0123456789", vec![2..6])
        .replace(|substr| if substr == "2345" { "." } else { substr }.to_owned());

    assert_eq!("01.6789", line.value());
    assert_equal(
        [(false, "01"), (true, "."), (false, "6789")],
        line.iter().into_iter().take(100),
    );
}

#[test]
fn test_replace_lengthens() {
    let line = new_line("0123456789", vec![2..6]).replace(|substr| {
        if substr == "2345" {
            "foobarbaz"
        } else {
            substr
        }
        .to_owned()
    });

    assert_eq!("01foobarbaz6789", line.value());
    assert_equal(
        [(false, "01"), (true, "foobarbaz"), (false, "6789")],
        line.iter().into_iter().take(100),
    );
}

#[test]
fn test_replace_same_len() {
    let line = new_line("0123456789", vec![2..6])
        .replace(|substr| if substr == "2345" { "smaz" } else { substr }.to_owned());

    assert_eq!("01smaz6789", line.value());
    assert_equal(
        [(false, "01"), (true, "smaz"), (false, "6789")],
        line.iter().into_iter().take(100),
    );
}

#[test]
fn test_replace_drops_empty() {
    let line = new_line("0123456789", vec![2..6])
        .replace(|substr| if substr == "2345" { "" } else { substr }.to_owned());

    assert_eq!("016789", line.value());
    assert_equal([(false, "016789")], line.iter().into_iter().take(100));
}
