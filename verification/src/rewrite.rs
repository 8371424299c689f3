//! Writing replacements back: the new contents of a file.
//!
//! The contents of the file are held in a `ropey::Rope`, which finds lines
//! and edits text by character index. Each line of the replacement takes the
//! place of the line of the same number. Reading and writing the file, and
//! copying it to its backup, are left to the caller.
use crate::matched_file::{lines_view, Line, LineView, MatchedFile};
use crate::text::push_text;
use vstd::prelude::*;
use vstd::string::*;

verus! {

/// What is put behind the path of a file to name its backup.
pub const BACKUP_SUFFIX: &'static str = ".bak";

/// Why a file was not rewritten.
#[derive(Debug, Clone, Copy, PartialEq, Eq, Structural)]
pub enum RewriteError {
    /// The backup of the file exists already, and is not overwritten.
    BackupExists,
    /// The file has no line of the number of a replaced line.
    LineOutOfRange,
}

/// `ropey::Rope`, a text that is edited by character index.
#[verifier::external_type_specification]
#[verifier::external_body]
pub struct ExRope(ropey::Rope);

/// The characters that a rope holds.
pub uninterp spec fn rope_text(rope: ropey::Rope) -> Seq<char>;

/// The number of lines that `ropey::Rope::len_lines` counts in a text: one
/// more than the line breaks in it.
pub uninterp spec fn rope_line_count(text: Seq<char>) -> nat;

/// The index of the character at which `ropey::Rope::line_to_char` finds the
/// line of the given number, counted from zero, to start.
pub uninterp spec fn rope_line_start(text: Seq<char>, line: nat) -> nat;

/// `ropey::Rope::from_str`: a rope that holds the text.
#[verifier::external_body]
fn rope_of(text: &str) -> (rope: ropey::Rope)
    ensures
        rope_text(rope) == text@,
{
    ropey::Rope::from_str(text)
}

/// `ropey::Rope::len_chars`: the number of characters in the rope.
#[verifier::external_body]
fn rope_len_chars(rope: &ropey::Rope) -> (len: usize)
    ensures
        len == rope_text(*rope).len(),
{
    rope.len_chars()
}

/// `ropey::Rope::len_lines`: the number of lines in the rope, which the
/// contract names.
#[verifier::external_body]
fn rope_len_lines(rope: &ropey::Rope) -> (count: usize)
    ensures
        count == rope_line_count(rope_text(*rope)),
{
    rope.len_lines()
}

/// `ropey::Rope::line_to_char`: where the line starts, which the contract
/// names. The call panics for a number beyond the count of lines; the count
/// itself is accepted, as one past the last line.
#[verifier::external_body]
fn rope_line_to_char(rope: &ropey::Rope, line: usize) -> (start: usize)
    requires
        line <= rope_line_count(rope_text(*rope)),
    ensures
        start == rope_line_start(rope_text(*rope), line as nat),
{
    rope.line_to_char(line)
}

/// `ropey::Rope::remove`: takes the characters from `start` up to `end` out.
/// The call panics where `start` is greater than `end` or `end` is beyond
/// the length.
#[verifier::external_body]
fn rope_remove(rope: &mut ropey::Rope, start: usize, end: usize)
    requires
        start <= end <= rope_text(*old(rope)).len(),
    ensures
        rope_text(*final(rope)) == rope_text(*old(rope)).subrange(0, start as int) + rope_text(
            *old(rope),
        ).subrange(end as int, rope_text(*old(rope)).len() as int),
{
    rope.remove(start..end)
}

/// `ropey::Rope::insert`: puts `text` in before the character of index
/// `at`. The call panics where `at` is beyond the length.
#[verifier::external_body]
fn rope_insert(rope: &mut ropey::Rope, at: usize, text: &str)
    requires
        at <= rope_text(*old(rope)).len(),
    ensures
        rope_text(*final(rope)) == rope_text(*old(rope)).subrange(0, at as int) + text@
            + rope_text(*old(rope)).subrange(at as int, rope_text(*old(rope)).len() as int),
{
    rope.insert(at, text)
}

/// The text of the rope as a `String`, which `ropey` gives through
/// `From<&Rope>`.
#[verifier::external_body]
fn rope_to_string(rope: &ropey::Rope) -> (text: String)
    ensures
        text@ == rope_text(*rope),
{
    String::from(rope)
}

/// The line of number `line.num` is in `text`, between two character
/// indices in order.
pub open spec fn line_in_text(text: Seq<char>, line: LineView) -> bool {
    &&& line.num + 1 <= rope_line_count(text)
    &&& rope_line_start(text, line.num as nat) <= rope_line_start(text, (line.num + 1) as nat)
    &&& rope_line_start(text, (line.num + 1) as nat) <= text.len()
}

/// `text` with the line of number `line.num` replaced by the text of
/// `line`, line break and all.
pub open spec fn with_line(text: Seq<char>, line: LineView) -> Seq<char> {
    text.subrange(0, rope_line_start(text, line.num as nat) as int) + line.text + text.subrange(
        rope_line_start(text, (line.num + 1) as nat) as int,
        text.len() as int,
    )
}

/// `text` with each of `lines` put in the place of the line of its number,
/// one after the other. The first of them that the text, as it then is,
/// has no line for, fails the whole.
pub open spec fn rewritten(text: Seq<char>, lines: Seq<LineView>) -> Result<
    Seq<char>,
    RewriteError,
>
    decreases lines.len(),
{
    if lines.len() == 0 {
        Ok(text)
    } else if !line_in_text(text, lines[0]) {
        Err(RewriteError::LineOutOfRange)
    } else {
        rewritten(with_line(text, lines[0]), lines.drop_first())
    }
}

/// Rewriting with one line puts the text of that line where the rope finds
/// the line of its number to start and to end, and leaves every character
/// before and behind that stretch as it was.
pub proof fn lemma_one_line_rewritten(text: Seq<char>, line: LineView)
    requires
        line_in_text(text, line),
    ensures
        rewritten(text, seq![line]) == Ok::<Seq<char>, RewriteError>(with_line(text, line)),
        with_line(text, line).len() == text.len() - (rope_line_start(
            text,
            (line.num + 1) as nat,
        ) - rope_line_start(text, line.num as nat)) + line.text.len(),
        with_line(text, line).subrange(0, rope_line_start(text, line.num as nat) as int)
            == text.subrange(0, rope_line_start(text, line.num as nat) as int),
        with_line(text, line).subrange(
            rope_line_start(text, line.num as nat) as int,
            (rope_line_start(text, line.num as nat) + line.text.len()) as int,
        ) == line.text,
        with_line(text, line).subrange(
            (rope_line_start(text, line.num as nat) + line.text.len()) as int,
            with_line(text, line).len() as int,
        ) == text.subrange(
            rope_line_start(text, (line.num + 1) as nat) as int,
            text.len() as int,
        ),
{
    let start = rope_line_start(text, line.num as nat) as int;
    let end = rope_line_start(text, (line.num + 1) as nat) as int;
    let new = with_line(text, line);
    assert(seq![line].drop_first() =~= Seq::<LineView>::empty());
    assert(rewritten(new, Seq::<LineView>::empty()) == Ok::<Seq<char>, RewriteError>(new));
    assert(new.subrange(0, start) =~= text.subrange(0, start));
    assert(new.subrange(start, start + line.text.len()) =~= line.text);
    assert(new.subrange(start + line.text.len(), new.len() as int) =~= text.subrange(
        end,
        text.len() as int,
    ));
}

/// How many submatches the first `upto` lines have together.
pub open spec fn count_submatches(lines: Seq<LineView>, upto: int) -> int
    decreases upto,
{
    if upto <= 0 {
        0
    } else {
        count_submatches(lines, upto - 1) + lines[upto - 1].submatches.len()
    }
}

/// The new contents of a file and the number of replacements made in it.
pub struct Rewritten {
    pub contents: String,
    pub num_replacements: usize,
}

/// What a rewrite stands for, if it succeeded.
pub open spec fn rewritten_view(done: Result<Rewritten, RewriteError>) -> Result<
    Seq<char>,
    RewriteError,
> {
    match done {
        Ok(done) => Ok(done.contents@),
        Err(error) => Err(error),
    }
}

/// Where the backup of the file at `file_path` goes, if there is none yet:
/// a backup that exists is never overwritten.
pub fn backup_path(file_path: &str, backup_exists: bool) -> (path: Result<String, RewriteError>)
    ensures
        backup_exists ==> path == Err::<String, RewriteError>(RewriteError::BackupExists),
        !backup_exists ==> path is Ok && path.unwrap()@ == file_path@ + BACKUP_SUFFIX@,
{
    if backup_exists {
        return Err(RewriteError::BackupExists);
    }
    let mut path = file_path.to_owned();
    push_text(&mut path, BACKUP_SUFFIX);
    Ok(path)
}

/// Puts `line` in the place of the line of its number in the rope, if the
/// rope has such a line.
fn replace_line(rope: &mut ropey::Rope, line: &Line) -> (replaced: Result<(), RewriteError>)
    ensures
        line_in_text(rope_text(*old(rope)), line@) ==> replaced is Ok && rope_text(*final(rope))
            == with_line(rope_text(*old(rope)), line@),
        !line_in_text(rope_text(*old(rope)), line@) ==> replaced == Err::<(), RewriteError>(
            RewriteError::LineOutOfRange,
        ) && rope_text(*final(rope)) == rope_text(*old(rope)),
{
    let ghost text = rope_text(*rope);
    let num = line.num();
    let lines = rope_len_lines(rope);
    if num >= lines {
        return Err(RewriteError::LineOutOfRange);
    }
    let start = rope_line_to_char(rope, num);
    let end = rope_line_to_char(rope, num + 1);
    if start > end || end > rope_len_chars(rope) {
        return Err(RewriteError::LineOutOfRange);
    }
    rope_remove(rope, start, end);
    rope_insert(rope, start, line.value());
    proof {
        let cut = text.subrange(0, start as int) + text.subrange(end as int, text.len() as int);
        assert(cut.subrange(0, start as int) =~= text.subrange(0, start as int));
        assert(cut.subrange(start as int, cut.len() as int) =~= text.subrange(
            end as int,
            text.len() as int,
        ));
    }
    Ok(())
}

/// The contents of a file in which each line of `replacement` has taken the
/// place of the line of its number, and the number of submatches in those
/// lines: see [`rewritten`].
pub fn rewrite_contents(contents: &str, replacement: &MatchedFile) -> (done: Result<
    Rewritten,
    RewriteError,
>)
    ensures
        rewritten_view(done) == rewritten(contents@, replacement@.lines),
        done matches Ok(done) ==> done.num_replacements == count_submatches(
            replacement@.lines,
            replacement@.lines.len() as int,
        ) || (done.num_replacements == usize::MAX && count_submatches(
            replacement@.lines,
            replacement@.lines.len() as int,
        ) > usize::MAX),
{
    let mut rope = rope_of(contents);
    let lines = replacement.lines();
    let ghost all = replacement@.lines;
    let mut num_replacements: usize = 0;
    let mut i: usize = 0;
    proof {
        assert(all.skip(0) =~= all);
    }
    while i < lines.len()
        invariant
            i <= lines.len(),
            lines_view(lines@) == all,
            all == replacement@.lines,
            rewritten(rope_text(rope), all.skip(i as int)) == rewritten(contents@, all),
            num_replacements == count_submatches(all, i as int) || (num_replacements == usize::MAX
                && count_submatches(all, i as int) > usize::MAX),
        decreases lines.len() - i,
    {
        proof {
            assert(all.skip(i as int)[0] == lines[i as int]@);
            assert(all.skip(i as int).drop_first() =~= all.skip(i + 1));
        }
        let ghost before = rope_text(rope);
        match replace_line(&mut rope, &lines[i]) {
            Ok(()) => {},
            Err(error) => {
                proof {
                    assert(!line_in_text(before, all.skip(i as int)[0]));
                    assert(rewritten(before, all.skip(i as int)) == Err::<
                        Seq<char>,
                        RewriteError,
                    >(RewriteError::LineOutOfRange));
                }
                return Err(error);
            },
        }
        num_replacements = num_replacements.saturating_add(lines[i].num_submatches());
        i += 1;
    }
    proof {
        assert(all.skip(i as int) =~= Seq::<LineView>::empty());
    }
    Ok(Rewritten { contents: rope_to_string(&rope), num_replacements })
}

} // verus!
