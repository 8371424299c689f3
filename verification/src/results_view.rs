//! The rows in which found files are listed.
//!
//! A file is listed as a heading with its path and a row for each of its
//! lines. Where the lines of a file are not next to each other in the file,
//! a separator row marks the gap. The rows are offered to a window, which
//! takes those that are in view.
use crate::matched_file::{
    files_view, lines_view, parts_bytes, Line, LineView, MatchedFile, MatchedFileView,
};
use crate::scrollable::{lemma_offered_in_turn, lemma_offered_one, Scrollable, ScrollableView};
use vstd::prelude::*;
use vstd::string::*;

verus! {

/// One row of the list.
#[derive(Debug, PartialEq, Eq)]
pub enum Row<'a> {
    /// An empty row, between two files.
    Blank,
    /// The path of a file and, where it is shown, the number of its lines.
    Heading { file_path: &'a str, lines: Option<usize> },
    /// The mark of a gap between two lines.
    Separator,
    /// A line: its number, counted from one, and its spans.
    Line { number: usize, parts: Vec<(bool, &'a str)> },
}

/// What a row stands for.
pub enum RowView {
    Blank,
    Heading { file_path: Seq<char>, lines: Option<usize> },
    Separator,
    Line { number: usize, spans: Seq<(bool, Seq<u8>)> },
}

impl<'a> View for Row<'a> {
    type V = RowView;

    open spec fn view(&self) -> RowView {
        match self {
            Row::Blank => RowView::Blank,
            Row::Heading { file_path, lines } => RowView::Heading {
                file_path: file_path@,
                lines: *lines,
            },
            Row::Separator => RowView::Separator,
            Row::Line { number, parts } => RowView::Line {
                number: *number,
                spans: parts_bytes(parts@),
            },
        }
    }
}

/// What each of a list of rows stands for.
pub open spec fn rows_view(rows: Seq<Row>) -> Seq<RowView> {
    Seq::new(rows.len(), |i: int| rows[i]@)
}

/// What a window of rows stands for.
pub open spec fn window_view(window: ScrollableView<Row>) -> ScrollableView<RowView> {
    ScrollableView {
        offset: window.offset,
        max_len: window.max_len,
        rows: rows_view(window.rows),
    }
}

/// The number that is shown for the line of number `num`: lines are
/// counted from zero and shown from one.
pub open spec fn shown_number(num: usize) -> usize {
    if num < usize::MAX {
        (num + 1) as usize
    } else {
        num
    }
}

/// The row of a line.
pub open spec fn line_row(line: LineView) -> RowView {
    RowView::Line { number: shown_number(line.num), spans: line.spans() }
}

/// The rows of the first `upto` lines: a row for each line, and before each
/// line that does not follow on the one before it, a separator.
pub open spec fn line_rows(lines: Seq<LineView>, upto: int) -> Seq<RowView>
    decreases upto,
{
    if upto <= 0 {
        seq![]
    } else if upto >= 2 && lines[upto - 2].num + 1 != lines[upto - 1].num {
        line_rows(lines, upto - 1).push(RowView::Separator).push(line_row(lines[upto - 1]))
    } else {
        line_rows(lines, upto - 1).push(line_row(lines[upto - 1]))
    }
}

/// The rows of a file: its heading and the rows of its lines.
pub open spec fn file_rows(file: MatchedFileView, with_count: bool) -> Seq<RowView> {
    seq![
        RowView::Heading {
            file_path: file.file_path,
            lines: if with_count {
                Some(file.lines.len() as usize)
            } else {
                None
            },
        },
    ] + line_rows(file.lines, file.lines.len() as int)
}

/// Offers a row that `make` makes if it is taken.
fn offer<'a, F: FnOnce() -> Row<'a>>(
    scrollable: &mut Scrollable<Row<'a>>,
    make: F,
    Ghost(row): Ghost<RowView>,
)
    requires
        make.requires(()),
        forall|made: Row<'a>| make.ensures((), made) ==> made@ == row,
    ensures
        window_view(final(scrollable)@) == window_view(old(scrollable)@).offered(row),
{
    let ghost before = scrollable@;
    scrollable.push(make);
    proof {
        if before.takes_next() {
            assert(scrollable@.rows =~= before.rows.push(scrollable@.rows.last()));
            assert(rows_view(scrollable@.rows) =~= rows_view(before.rows).push(row));
        } else {
            assert(scrollable@ == before.offered(arbitrary()));
        }
    }
}

/// Offers the rows of a file to the window: see [`file_rows`]. The number
/// of lines is shown in the heading if `is_preview` is set.
pub fn add_match_to_scrollable<'a>(
    scrollable: &mut Scrollable<Row<'a>>,
    found_match: &'a MatchedFile,
    is_preview: bool,
)
    requires
        found_match.wf(),
    ensures
        window_view(final(scrollable)@) == window_view(old(scrollable)@).offered_all(
            file_rows(found_match@, is_preview),
        ),
{
    let ghost start = window_view(scrollable@);
    let ghost file = found_match@;
    let lines = found_match.lines();
    let count = lines.len();
    let file_path = found_match.file_path();
    let ghost heading = RowView::Heading {
        file_path: file.file_path,
        lines: if is_preview {
            Some(count)
        } else {
            None
        },
    };
    let make_heading = || -> (row: Row<'a>)
        ensures
            row@ == heading,
        {
            Row::Heading {
                file_path,
                lines: if is_preview {
                    Some(count)
                } else {
                    None
                },
            }
        };
    offer(scrollable, make_heading, Ghost(heading));
    proof {
        lemma_offered_one(start, heading);
        assert(seq![heading] + line_rows(file.lines, 0) =~= seq![heading]);
    }
    let mut i: usize = 0;
    while i < count
        invariant
            i <= count,
            count == lines.len(),
            found_match.wf(),
            file == found_match@,
            lines_view(lines@) == file.lines,
            heading == (RowView::Heading {
                file_path: file.file_path,
                lines: if is_preview {
                    Some(count)
                } else {
                    None
                },
            }),
            window_view(scrollable@) == start.offered_all(
                seq![heading] + line_rows(file.lines, i as int),
            ),
        decreases count - i,
    {
        let line = &lines[i];
        let ghost shown = seq![heading] + line_rows(file.lines, i as int);
        let ghost gap = i >= 1 && file.lines[i - 1].num + 1 != file.lines[i as int].num;
        proof {
            assert(file.lines[i as int] == line@);
            assert(line.wf());
            if i >= 1 {
                assert(file.lines[i - 1] == lines[i - 1]@);
            }
        }
        let num = line.num();
        if i >= 1 {
            let prev = lines[i - 1].num();
            if prev == usize::MAX || prev + 1 != num {
                let make_separator = || -> (row: Row<'a>)
                    ensures
                        row@ == RowView::Separator,
                    { Row::Separator };
                offer(scrollable, make_separator, Ghost(RowView::Separator));
                proof {
                    lemma_offered_in_turn(start, shown, seq![RowView::Separator]);
                    lemma_offered_one(start.offered_all(shown), RowView::Separator);
                }
            }
        }
        let ghost before = if gap {
            shown.push(RowView::Separator)
        } else {
            shown
        };
        proof {
            assert(shown + seq![RowView::Separator] =~= shown.push(RowView::Separator));
        }
        let make_line = || -> (row: Row<'a>)
            requires
                line.wf(),
            ensures
                row@ == line_row(line@),
            {
                Row::Line {
                    number: if num < usize::MAX {
                        num + 1
                    } else {
                        num
                    },
                    parts: line.iter(),
                }
            };
        offer(scrollable, make_line, Ghost(line_row(line@)));
        proof {
            let row = line_row(line@);
            lemma_offered_in_turn(start, before, seq![row]);
            lemma_offered_one(start.offered_all(before), row);
            assert(before + seq![row] =~= seq![heading] + line_rows(file.lines, i + 1));
        }
        i += 1;
    }
}

/// The rows of a list of files: the rows of each file, with an empty row
/// between one file and the next.
pub open spec fn files_rows(files: Seq<MatchedFileView>, upto: int, with_count: bool) -> Seq<
    RowView,
>
    decreases upto,
{
    if upto <= 0 {
        seq![]
    } else if upto == 1 {
        file_rows(files[0], with_count)
    } else {
        files_rows(files, upto - 1, with_count).push(RowView::Blank) + file_rows(
            files[upto - 1],
            with_count,
        )
    }
}

/// Offers the rows of the files to the window: see [`files_rows`].
pub fn add_matches_to_scrollable<'a>(
    scrollable: &mut Scrollable<Row<'a>>,
    found_matches: &'a Vec<MatchedFile>,
    is_preview: bool,
)
    requires
        forall|i: int| 0 <= i < found_matches.len() ==> (#[trigger] found_matches[i]).wf(),
    ensures
        window_view(final(scrollable)@) == window_view(old(scrollable)@).offered_all(
            files_rows(
                files_view(found_matches@),
                found_matches.len() as int,
                is_preview,
            ),
        ),
{
    let ghost start = window_view(scrollable@);
    let ghost files = files_view(found_matches@);
    let mut i: usize = 0;
    while i < found_matches.len()
        invariant
            i <= found_matches.len(),
            files == files_view(found_matches@),
            forall|k: int| 0 <= k < found_matches.len() ==> (#[trigger] found_matches[k]).wf(),
            window_view(scrollable@) == start.offered_all(files_rows(files, i as int, is_preview)),
        decreases found_matches.len() - i,
    {
        let ghost shown = files_rows(files, i as int, is_preview);
        if i > 0 {
            let make_blank = || -> (row: Row<'a>)
                ensures
                    row@ == RowView::Blank,
                { Row::Blank };
            offer(scrollable, make_blank, Ghost(RowView::Blank));
            proof {
                lemma_offered_in_turn(start, shown, seq![RowView::Blank]);
                lemma_offered_one(start.offered_all(shown), RowView::Blank);
                assert(shown + seq![RowView::Blank] =~= shown.push(RowView::Blank));
            }
        }
        let ghost before = if i > 0 {
            shown.push(RowView::Blank)
        } else {
            shown
        };
        add_match_to_scrollable(scrollable, &found_matches[i], is_preview);
        proof {
            let rows = file_rows(files[i as int], is_preview);
            assert(files[i as int] == found_matches[i as int]@);
            lemma_offered_in_turn(start, before, rows);
            if i == 0 {
                assert(before + rows =~= rows);
            }
        }
        i += 1;
    }
}

} // verus!
