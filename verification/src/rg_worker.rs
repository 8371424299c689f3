//! Reading what the search tool writes.
//!
//! The tool writes one JSON record per line: `begin` opens a file, `match`
//! and `context` carry its lines, `end` closes it. The bytes arrive in chunks
//! of any size while the tool is still running, so a chunk may end inside a
//! record. [`StreamingResultParser`] cuts the stream into records, decodes
//! each into a [`Record`] and gathers the lines of a file until its `end`
//! record, when the file is handed on.
use crate::json::{
    json_array, json_array_at, json_document, json_str, json_string_at, json_u64, json_u64_at,
    parse_json,
};
use crate::matched_file::{
    files_view, lines_view, ranges, ranges_valid, Line, LineView, MatchedFile, MatchedFileView,
};
use crate::text::{
    first_occurrence, lemma_first_occurrence, lemma_is_first_occurrence, occurs_at, same_text,
    text_of,
};
use std::ops::Range;
use vstd::prelude::*;
use vstd::string::*;
use vstd::utf8::*;

verus! {

/// Where a record holds its kind.
pub const KIND_AT: &'static str = "/type";

/// Where a `begin` record holds the path of the file.
pub const PATH_AT: &'static str = "/data/path/text";

/// Where a `match` or `context` record holds the number of the line,
/// counted from one.
pub const LINE_NUMBER_AT: &'static str = "/data/line_number";

/// Where a `match` or `context` record holds the text of the line.
pub const LINE_TEXT_AT: &'static str = "/data/lines/text";

/// Where a `match` record holds its submatches.
pub const SUBMATCHES_AT: &'static str = "/data/submatches";

/// Where a submatch holds the byte offset at which it starts.
pub const START_AT: &'static str = "/start";

/// Where a submatch holds the byte offset at which it ends.
pub const END_AT: &'static str = "/end";

/// Why a worker cannot go on reading.
#[derive(Debug, Clone, Copy, PartialEq, Eq, Structural)]
pub enum WorkerError {
    /// A record is not UTF-8 text.
    NotText,
    /// A record is not a JSON document.
    Malformed,
    /// A record lacks a value that its kind must have.
    MissingField,
    /// The number of a line is zero or too large.
    BadLineNumber,
    /// The submatches of a line are not non-empty ranges of its text in
    /// ascending order, apart from one another and on character boundaries.
    BadSubmatches,
}

/// One record of the search tool's output.
#[derive(Debug, PartialEq, Eq)]
pub enum Record {
    /// A file begins.
    Begin { path: String },
    /// A line with submatches. The number counts from zero.
    Match { line_number: usize, text: String, submatches: Vec<Range<usize>> },
    /// A line without submatches. The number counts from zero.
    Context { line_number: usize, text: String },
    /// The file ends.
    End,
    /// A record of another kind, which says nothing about lines.
    Other,
}

/// What a record stands for.
pub enum RecordView {
    Begin { path: Seq<char> },
    Line { line: LineView },
    End,
    Other,
}

impl View for Record {
    type V = RecordView;

    open spec fn view(&self) -> RecordView {
        match self {
            Record::Begin { path } => RecordView::Begin { path: path@ },
            Record::Match { line_number, text, submatches } => RecordView::Line {
                line: LineView { num: *line_number, text: text@, submatches: ranges(submatches@) },
            },
            Record::Context { line_number, text } => RecordView::Line {
                line: LineView { num: *line_number, text: text@, submatches: seq![] },
            },
            Record::End => RecordView::End,
            Record::Other => RecordView::Other,
        }
    }
}

impl RecordView {
    /// A record of a line holds a valid line.
    pub open spec fn wf(self) -> bool {
        self matches RecordView::Line { line } ==> line.wf()
    }
}

/// What a decoded record stands for.
pub open spec fn decoded_view(decoded: Result<Record, WorkerError>) -> Result<
    RecordView,
    WorkerError,
> {
    match decoded {
        Ok(record) => Ok(record@),
        Err(error) => Err(error),
    }
}

/// The ranges that the elements of a `submatches` array hold, each read
/// from [`START_AT`] and [`END_AT`]. The first element that lacks one of the
/// two, or holds an offset that no `usize` can hold, decides the error.
pub open spec fn submatches_of(items: Seq<serde_json::Value>) -> Result<
    Seq<(int, int)>,
    WorkerError,
>
    decreases items.len(),
{
    if items.len() == 0 {
        Ok(seq![])
    } else {
        let start = json_u64_at(items[0], START_AT@);
        let end = json_u64_at(items[0], END_AT@);
        if start is None || end is None {
            Err(WorkerError::MissingField)
        } else if start.unwrap() > usize::MAX || end.unwrap() > usize::MAX {
            Err(WorkerError::BadSubmatches)
        } else {
            match submatches_of(items.drop_first()) {
                Ok(rest) => Ok(seq![(start.unwrap() as int, end.unwrap() as int)] + rest),
                Err(error) => Err(error),
            }
        }
    }
}

/// The record of a line, from what a `match` or `context` record says of
/// it: its number, counted from one there and from zero here, its text and
/// its submatches. A number of zero, or one too large for a `usize`, is
/// refused, and so are submatches that are not valid for the text.
pub open spec fn line_record_of(number: u64, text: Seq<char>, submatches: Seq<(int, int)>) -> Result<
    RecordView,
    WorkerError,
> {
    if number == 0 || number - 1 > usize::MAX {
        Err(WorkerError::BadLineNumber)
    } else if !ranges_valid(encode_utf8(text), submatches) {
        Err(WorkerError::BadSubmatches)
    } else {
        Ok(RecordView::Line { line: LineView { num: (number - 1) as usize, text, submatches } })
    }
}

/// The line that a `match` or `context` record holds, with the given
/// submatches: the number and the text must be there, and make a record as
/// [`line_record_of`] says.
pub open spec fn line_of(doc: serde_json::Value, submatches: Seq<(int, int)>) -> Result<
    RecordView,
    WorkerError,
> {
    let number = json_u64_at(doc, LINE_NUMBER_AT@);
    let text = json_string_at(doc, LINE_TEXT_AT@);
    if number is None || text is None {
        Err(WorkerError::MissingField)
    } else {
        line_record_of(number.unwrap(), text.unwrap(), submatches)
    }
}

/// The record that a document is.
pub open spec fn record_of(doc: serde_json::Value) -> Result<RecordView, WorkerError> {
    let kind = json_string_at(doc, KIND_AT@);
    if kind == Some("begin"@) {
        match json_string_at(doc, PATH_AT@) {
            Some(path) => Ok(RecordView::Begin { path }),
            None => Err(WorkerError::MissingField),
        }
    } else if kind == Some("end"@) {
        Ok(RecordView::End)
    } else if kind == Some("context"@) {
        line_of(doc, seq![])
    } else if kind == Some("match"@) {
        match json_array_at(doc, SUBMATCHES_AT@) {
            Some(items) => match submatches_of(items) {
                Ok(submatches) => line_of(doc, submatches),
                Err(error) => Err(error),
            },
            None => Err(WorkerError::MissingField),
        }
    } else {
        Ok(RecordView::Other)
    }
}

/// The record that a text is.
pub open spec fn record_of_text(text: Seq<char>) -> Result<RecordView, WorkerError> {
    match json_document(text) {
        Some(doc) => record_of(doc),
        None => Err(WorkerError::Malformed),
    }
}

/// Reads the ranges from the elements of a `submatches` array: see
/// [`submatches_of`].
fn read_submatches(items: &Vec<serde_json::Value>) -> (read: Result<
    Vec<Range<usize>>,
    WorkerError,
>)
    ensures
        match read {
            Ok(submatches) => submatches_of(items@) == Ok::<Seq<(int, int)>, WorkerError>(
                ranges(submatches@),
            ),
            Err(error) => submatches_of(items@) == Err::<Seq<(int, int)>, WorkerError>(error),
        },
{
    let mut submatches: Vec<Range<usize>> = Vec::new();
    let mut i: usize = 0;
    proof {
        assert(items@.skip(0) =~= items@);
    }
    while i < items.len()
        invariant
            i <= items.len(),
            match submatches_of(items@.skip(i as int)) {
                Ok(rest) => submatches_of(items@) == Ok::<Seq<(int, int)>, WorkerError>(
                    ranges(submatches@) + rest,
                ),
                Err(error) => submatches_of(items@) == Err::<Seq<(int, int)>, WorkerError>(error),
            },
        decreases items.len() - i,
    {
        let ghost left = items@.skip(i as int);
        let ghost before = ranges(submatches@);
        proof {
            assert(left[0] == items@[i as int]);
            assert(left.drop_first() =~= items@.skip(i + 1));
        }
        let start = json_u64(&items[i], START_AT);
        let end = json_u64(&items[i], END_AT);
        match (start, end) {
            (Some(start), Some(end)) => {
                if start > usize::MAX as u64 || end > usize::MAX as u64 {
                    return Err(WorkerError::BadSubmatches);
                }
                submatches.push(start as usize..end as usize);
                proof {
                    assert(ranges(submatches@) =~= before.push((start as int, end as int)));
                    if submatches_of(items@.skip(i + 1)) is Ok {
                        let rest = submatches_of(items@.skip(i + 1)).unwrap();
                        assert(ranges(submatches@) + rest =~= before + (seq![
                            (start as int, end as int),
                        ] + rest));
                    }
                }
            },
            _ => {
                return Err(WorkerError::MissingField);
            },
        }
        i += 1;
    }
    proof {
        assert(items@.skip(i as int) =~= Seq::<serde_json::Value>::empty());
        assert(ranges(submatches@) + Seq::<(int, int)>::empty() =~= ranges(submatches@));
    }
    Ok(submatches)
}

/// The record of a line with the given number, counted from one, text and
/// submatches: see [`line_record_of`]. A line without submatches is a
/// context line.
pub fn line_record(number: u64, text: &str, submatches: Vec<Range<usize>>) -> (read: Result<
    Record,
    WorkerError,
>)
    ensures
        decoded_view(read) == line_record_of(number, text@, ranges(submatches@)),
        read matches Ok(record) ==> record@.wf(),
{
    if number == 0 || number - 1 > usize::MAX as u64 {
        return Err(WorkerError::BadLineNumber);
    }
    let line_number = (number - 1) as usize;
    if !Line::check_invariants(text, &submatches) {
        return Err(WorkerError::BadSubmatches);
    }
    if submatches.len() == 0 {
        proof {
            assert(ranges(submatches@) =~= Seq::<(int, int)>::empty());
        }
        Ok(Record::Context { line_number, text: text.to_owned() })
    } else {
        Ok(Record::Match { line_number, text: text.to_owned(), submatches })
    }
}

/// Reads the line of a `match` or `context` record, with the submatches
/// already read: see [`line_of`].
fn read_line(doc: &serde_json::Value, submatches: Vec<Range<usize>>) -> (read: Result<
    Record,
    WorkerError,
>)
    ensures
        decoded_view(read) == line_of(*doc, ranges(submatches@)),
        read matches Ok(record) ==> record@.wf(),
{
    let number = json_u64(doc, LINE_NUMBER_AT);
    let text = json_str(doc, LINE_TEXT_AT);
    match (number, text) {
        (Some(number), Some(text)) => line_record(number, text, submatches),
        _ => Err(WorkerError::MissingField),
    }
}

/// The record that the document is: see [`record_of`].
pub fn record_from(doc: &serde_json::Value) -> (read: Result<Record, WorkerError>)
    ensures
        decoded_view(read) == record_of(*doc),
        read matches Ok(record) ==> record@.wf(),
{
    let kind = match json_str(doc, KIND_AT) {
        Some(kind) => kind,
        None => {
            return Ok(Record::Other);
        },
    };
    if same_text(kind, "begin") {
        match json_str(doc, PATH_AT) {
            Some(path) => Ok(Record::Begin { path: path.to_owned() }),
            None => Err(WorkerError::MissingField),
        }
    } else if same_text(kind, "end") {
        Ok(Record::End)
    } else if same_text(kind, "context") {
        proof {
            assert(ranges(Seq::<Range<usize>>::empty()) =~= Seq::<(int, int)>::empty());
        }
        read_line(doc, Vec::new())
    } else if same_text(kind, "match") {
        match json_array(doc, SUBMATCHES_AT) {
            Some(items) => match read_submatches(items) {
                Ok(submatches) => read_line(doc, submatches),
                Err(error) => Err(error),
            },
            None => Err(WorkerError::MissingField),
        }
    } else {
        Ok(Record::Other)
    }
}

/// The record that the text is: see [`record_of_text`].
pub fn decode_record(text: &str) -> (read: Result<Record, WorkerError>)
    ensures
        decoded_view(read) == record_of_text(text@),
        read matches Ok(record) ==> record@.wf(),
{
    match parse_json(text) {
        Some(doc) => record_from(&doc),
        None => Err(WorkerError::Malformed),
    }
}

/// What a builder stands for: the path and the lines gathered so far.
pub struct BuilderView {
    pub file_path: Seq<char>,
    pub lines: Seq<LineView>,
}

impl BuilderView {
    /// Nothing gathered.
    pub open spec fn empty() -> BuilderView {
        BuilderView { file_path: seq![], lines: seq![] }
    }

    /// Every line gathered is valid.
    pub open spec fn wf(self) -> bool {
        forall|i: int| 0 <= i < self.lines.len() ==> (#[trigger] self.lines[i]).wf()
    }

    /// The file that has been gathered.
    pub open spec fn built(self) -> MatchedFileView {
        MatchedFileView { file_path: self.file_path, lines: self.lines }
    }

    /// What a record does: `begin` sets the path, a line is added to the
    /// lines, `end` hands the gathered file on and starts afresh, a record of
    /// another kind does nothing.
    pub open spec fn applied(self, record: RecordView) -> (BuilderView, Option<MatchedFileView>) {
        match record {
            RecordView::Begin { path } => (
                BuilderView { file_path: path, lines: self.lines },
                None,
            ),
            RecordView::Line { line } => (
                BuilderView { file_path: self.file_path, lines: self.lines.push(line) },
                None,
            ),
            RecordView::End => (BuilderView::empty(), Some(self.built())),
            RecordView::Other => (self, None),
        }
    }
}

/// What an optional file stands for.
pub open spec fn file_view(file: Option<MatchedFile>) -> Option<MatchedFileView> {
    match file {
        Some(file) => Some(file@),
        None => None,
    }
}

/// The file that is being gathered between a `begin` and its `end`.
pub struct MatchedFileBuilder {
    file_path: String,
    lines: Vec<Line>,
}

impl View for MatchedFileBuilder {
    type V = BuilderView;

    closed spec fn view(&self) -> BuilderView {
        BuilderView { file_path: self.file_path@, lines: lines_view(self.lines@) }
    }
}

impl Default for MatchedFileBuilder {
    fn default() -> (builder: MatchedFileBuilder)
        ensures
            builder@ == BuilderView::empty(),
    {
        let builder = MatchedFileBuilder { file_path: String::new(), lines: Vec::new() };
        proof {
            assert(builder@.lines =~= Seq::<LineView>::empty());
        }
        builder
    }
}

impl MatchedFileBuilder {
    /// Every line gathered is valid.
    pub open spec fn wf(&self) -> bool {
        self@.wf()
    }

    /// Hands the gathered file on and starts afresh.
    pub fn build(&mut self) -> (file: MatchedFile)
        ensures
            file@ == old(self)@.built(),
            final(self)@ == BuilderView::empty(),
    {
        let mut file_path = String::new();
        let mut lines: Vec<Line> = Vec::new();
        proof {
            assert(lines_view(lines@) =~= Seq::<LineView>::empty());
        }
        std::mem::swap(&mut self.file_path, &mut file_path);
        std::mem::swap(&mut self.lines, &mut lines);
        MatchedFile::new(file_path.as_str(), lines)
    }

    /// Takes a record in: see [`BuilderView::applied`].
    pub fn apply(&mut self, record: Record) -> (file: Option<MatchedFile>)
        requires
            old(self).wf(),
            record@.wf(),
        ensures
            final(self).wf(),
            (final(self)@, file_view(file)) == old(self)@.applied(record@),
            file matches Some(file) ==> file.wf(),
    {
        match record {
            Record::Begin { path } => {
                let ghost before = self@.lines;
                self.file_path = path;
                proof {
                    assert(self@.lines == before);
                    assert forall|i: int| 0 <= i < self@.lines.len() implies (
                    #[trigger] self@.lines[i]).wf() by {
                        assert(before[i].wf());
                    }
                }
                None
            },
            Record::Match { line_number, text, submatches } => {
                let ghost before = lines_view(self.lines@);
                let line = Line::new(line_number, text.as_str(), submatches);
                self.lines.push(line);
                proof {
                    assert(lines_view(self.lines@) =~= before.push(line@));
                    assert forall|i: int| 0 <= i < self@.lines.len() implies (
                    #[trigger] self@.lines[i]).wf() by {
                        if i < before.len() {
                            assert(before == old(self)@.lines);
                            assert(old(self)@.lines[i].wf());
                        }
                    }
                }
                None
            },
            Record::Context { line_number, text } => {
                let ghost before = lines_view(self.lines@);
                let submatches: Vec<Range<usize>> = Vec::new();
                proof {
                    assert(ranges(submatches@) =~= Seq::<(int, int)>::empty());
                }
                let line = Line::new(line_number, text.as_str(), submatches);
                self.lines.push(line);
                proof {
                    assert(lines_view(self.lines@) =~= before.push(line@));
                    assert forall|i: int| 0 <= i < self@.lines.len() implies (
                    #[trigger] self@.lines[i]).wf() by {
                        if i < before.len() {
                            assert(before == old(self)@.lines);
                            assert(old(self)@.lines[i].wf());
                        }
                    }
                }
                None
            },
            Record::End => {
                let file = self.build();
                proof {
                    assert(file@.lines == old(self)@.lines);
                }
                Some(file)
            },
            Record::Other => None,
        }
    }
}

/// The byte that ends a record.
pub const NEWLINE: u8 = 0x0a;

/// The offset of the first newline in `bytes`.
pub open spec fn first_newline(bytes: Seq<u8>) -> Option<int> {
    first_occurrence(bytes, seq![NEWLINE])
}

/// What one record, given as bytes, does to the builder, or why the worker
/// cannot go on: the bytes are not text, the text is no record, or the
/// record lacks what it must have.
pub open spec fn step(builder: BuilderView, record: Seq<u8>) -> Result<
    (BuilderView, Option<MatchedFileView>),
    WorkerError,
> {
    if !valid_utf8(record) {
        Err(WorkerError::NotText)
    } else {
        match record_of_text(decode_utf8(record)) {
            Ok(record) => Ok(builder.applied(record)),
            Err(error) => Err(error),
        }
    }
}

/// What reading some bytes comes to.
pub struct Outcome {
    /// The file being gathered afterwards.
    pub builder: BuilderView,
    /// The files that were completed, in order.
    pub published: Seq<MatchedFileView>,
    /// The bytes that were not taken as records.
    pub rest: Seq<u8>,
    /// Why reading stopped, if it did.
    pub error: Option<WorkerError>,
}

/// The file that a step completed, as a list: empty or of one.
pub open spec fn completed(file: Option<MatchedFileView>) -> Seq<MatchedFileView> {
    match file {
        Some(file) => seq![file],
        None => seq![],
    }
}

/// Reading `bytes`: each stretch up to and with a newline is a record and
/// is taken in, in order; what follows the last newline is left for later.
/// The first record that fails stops the reading: it is dropped, nothing
/// after it is read, and the files completed before it stay completed.
pub open spec fn run(builder: BuilderView, bytes: Seq<u8>) -> Outcome
    decreases bytes.len(),
{
    match first_newline(bytes) {
        Some(at) => {
            if 0 <= at < bytes.len() {
                let after = bytes.subrange(at + 1, bytes.len() as int);
                match step(builder, bytes.subrange(0, at + 1)) {
                    Ok((next, file)) => {
                        let later = run(next, after);
                        Outcome {
                            builder: later.builder,
                            published: completed(file) + later.published,
                            rest: later.rest,
                            error: later.error,
                        }
                    },
                    Err(error) => Outcome {
                        builder,
                        published: seq![],
                        rest: after,
                        error: Some(error),
                    },
                }
            } else {
                Outcome { builder, published: seq![], rest: bytes, error: None }
            }
        },
        None => Outcome { builder, published: seq![], rest: bytes, error: None },
    }
}

/// Reading the bytes that are left when the stream has ended: if there are
/// any, they are the last record, with or without a newline.
pub open spec fn run_last(builder: BuilderView, bytes: Seq<u8>) -> Outcome {
    if bytes.len() == 0 {
        Outcome { builder, published: seq![], rest: bytes, error: None }
    } else {
        match step(builder, bytes) {
            Ok((next, file)) => Outcome {
                builder: next,
                published: completed(file),
                rest: seq![],
                error: None,
            },
            Err(error) => Outcome { builder, published: seq![], rest: seq![], error: Some(error) },
        }
    }
}

/// A newline stands at an offset exactly where the byte there is one.
proof fn lemma_newline_at(bytes: Seq<u8>, at: int)
    ensures
        occurs_at(bytes, seq![NEWLINE], at) <==> 0 <= at < bytes.len() && bytes[at] == NEWLINE,
{
    if 0 <= at < bytes.len() {
        assert(bytes.subrange(at, at + 1)[0] == bytes[at]);
        if bytes[at] == NEWLINE {
            assert(bytes.subrange(at, at + 1) =~= seq![NEWLINE]);
        }
    }
}

/// Where the stream is cut into chunks makes no difference: reading one
/// chunk and then, with what it left, the next, completes the same files,
/// gathers the same lines, leaves the same bytes and ends in the same way as
/// reading the two chunks as one.
pub proof fn lemma_chunks_read_as_one(builder: BuilderView, first: Seq<u8>, second: Seq<u8>)
    requires
        run(builder, first).error is None,
    ensures
        run(builder, first + second).published == run(builder, first).published + run(
            run(builder, first).builder,
            run(builder, first).rest + second,
        ).published,
        run(builder, first + second).builder == run(
            run(builder, first).builder,
            run(builder, first).rest + second,
        ).builder,
        run(builder, first + second).rest == run(
            run(builder, first).builder,
            run(builder, first).rest + second,
        ).rest,
        run(builder, first + second).error == run(
            run(builder, first).builder,
            run(builder, first).rest + second,
        ).error,
    decreases first.len(),
{
    let whole = first + second;
    let alone = run(builder, first);
    let then = run(alone.builder, alone.rest + second);
    lemma_first_occurrence(first, seq![NEWLINE]);
    match first_newline(first) {
        Some(at) => {
            lemma_newline_at(first, at);
            assert forall|j: int| 0 <= j < at implies !occurs_at(whole, seq![NEWLINE], j) by {
                lemma_newline_at(first, j);
                lemma_newline_at(whole, j);
            }
            lemma_newline_at(whole, at);
            lemma_is_first_occurrence(whole, seq![NEWLINE], at);
            let record = first.subrange(0, at + 1);
            let after = first.subrange(at + 1, first.len() as int);
            assert(whole.subrange(0, at + 1) =~= record);
            assert(whole.subrange(at + 1, whole.len() as int) =~= after + second);
            match step(builder, record) {
                Ok((next, file)) => {
                    lemma_chunks_read_as_one(next, after, second);
                    let later = run(next, after);
                    let rest = run(later.builder, later.rest + second);
                    assert(completed(file) + (later.published + rest.published) =~= (completed(
                        file,
                    ) + later.published) + rest.published);
                },
                Err(_) => {},
            }
        },
        None => {
            assert(Seq::<MatchedFileView>::empty() + then.published =~= then.published);
        },
    }
}

/// What is read without an error is read without an error up to any cut.
pub proof fn lemma_no_error_before_cut(builder: BuilderView, first: Seq<u8>, second: Seq<u8>)
    requires
        run(builder, first + second).error is None,
    ensures
        run(builder, first).error is None,
    decreases first.len(),
{
    let whole = first + second;
    lemma_first_occurrence(first, seq![NEWLINE]);
    match first_newline(first) {
        Some(at) => {
            lemma_newline_at(first, at);
            assert forall|j: int| 0 <= j < at implies !occurs_at(whole, seq![NEWLINE], j) by {
                lemma_newline_at(first, j);
                lemma_newline_at(whole, j);
            }
            lemma_newline_at(whole, at);
            lemma_is_first_occurrence(whole, seq![NEWLINE], at);
            let record = first.subrange(0, at + 1);
            let after = first.subrange(at + 1, first.len() as int);
            assert(whole.subrange(0, at + 1) =~= record);
            assert(whole.subrange(at + 1, whole.len() as int) =~= after + second);
            match step(builder, record) {
                Ok((next, _)) => {
                    lemma_no_error_before_cut(next, after, second);
                },
                Err(_) => {},
            }
        },
        None => {},
    }
}

/// The chunks of a stream, joined.
pub open spec fn joined(chunks: Seq<Seq<u8>>) -> Seq<u8>
    decreases chunks.len(),
{
    if chunks.len() == 0 {
        seq![]
    } else {
        chunks[0] + joined(chunks.drop_first())
    }
}

/// Reading a stream chunk by chunk: each chunk is read behind the bytes
/// that the one before it left, and an error ends the reading.
pub open spec fn run_chunks(builder: BuilderView, rest: Seq<u8>, chunks: Seq<Seq<u8>>) -> Outcome
    decreases chunks.len(),
{
    if chunks.len() == 0 {
        Outcome { builder, published: seq![], rest, error: None }
    } else {
        let first = run(builder, rest + chunks[0]);
        if first.error is Some {
            first
        } else {
            let later = run_chunks(first.builder, first.rest, chunks.drop_first());
            Outcome {
                builder: later.builder,
                published: first.published + later.published,
                rest: later.rest,
                error: later.error,
            }
        }
    }
}

/// Reading a stream to its end: chunk by chunk, and then, if no error has
/// ended the reading, what is left as the last record.
pub open spec fn run_stream(builder: BuilderView, chunks: Seq<Seq<u8>>) -> Outcome {
    let read = run_chunks(builder, seq![], chunks);
    if read.error is Some {
        read
    } else {
        let last = run_last(read.builder, read.rest);
        Outcome {
            builder: last.builder,
            published: read.published + last.published,
            rest: last.rest,
            error: last.error,
        }
    }
}

/// However a stream is cut into chunks, and into however many, reading it
/// chunk by chunk comes to what reading it as one chunk comes to, where that
/// meets no error. What was left before the first chunk holds no newline, as
/// whatever a reading leaves.
pub proof fn lemma_any_chunks_read_as_one(
    builder: BuilderView,
    rest: Seq<u8>,
    chunks: Seq<Seq<u8>>,
)
    requires
        first_newline(rest) is None,
        run(builder, rest + joined(chunks)).error is None,
    ensures
        run_chunks(builder, rest, chunks).published == run(
            builder,
            rest + joined(chunks),
        ).published,
        run_chunks(builder, rest, chunks).builder == run(builder, rest + joined(chunks)).builder,
        run_chunks(builder, rest, chunks).rest == run(builder, rest + joined(chunks)).rest,
        run_chunks(builder, rest, chunks).error is None,
    decreases chunks.len(),
{
    if chunks.len() == 0 {
        assert(rest + joined(chunks) =~= rest);
    } else {
        let head = rest + chunks[0];
        let tail = joined(chunks.drop_first());
        assert(head + tail =~= rest + joined(chunks));
        lemma_no_error_before_cut(builder, head, tail);
        lemma_chunks_read_as_one(builder, head, tail);
        let first = run(builder, head);
        lemma_unread_rest(builder, head);
        lemma_any_chunks_read_as_one(first.builder, first.rest, chunks.drop_first());
        let later = run_chunks(first.builder, first.rest, chunks.drop_first());
        assert(run_chunks(builder, rest, chunks).published == first.published + later.published);
    }
}

/// What a reading without an error leaves holds no newline, and reading it
/// again changes nothing.
pub proof fn lemma_unread_rest(builder: BuilderView, bytes: Seq<u8>)
    requires
        run(builder, bytes).error is None,
    ensures
        first_newline(run(builder, bytes).rest) is None,
        run(run(builder, bytes).builder, run(builder, bytes).rest) == (Outcome {
            builder: run(builder, bytes).builder,
            published: seq![],
            rest: run(builder, bytes).rest,
            error: None,
        }),
        bytes.len() == 0 ==> run(builder, bytes) == (Outcome {
            builder,
            published: seq![],
            rest: bytes,
            error: None,
        }),
    decreases bytes.len(),
{
    lemma_first_occurrence(bytes, seq![NEWLINE]);
    match first_newline(bytes) {
        Some(at) => {
            lemma_newline_at(bytes, at);
            match step(builder, bytes.subrange(0, at + 1)) {
                Ok((next, _)) => {
                    lemma_unread_rest(next, bytes.subrange(at + 1, bytes.len() as int));
                },
                Err(_) => {},
            }
        },
        None => {},
    }
}

/// The stream read to its end in any chunks gives the files that the same
/// bytes give as one chunk, where reading them as one chunk meets no error.
pub proof fn lemma_stream_in_any_chunks(builder: BuilderView, chunks: Seq<Seq<u8>>)
    requires
        run_stream(builder, seq![joined(chunks)]).error is None,
    ensures
        run_stream(builder, chunks).published == run_stream(
            builder,
            seq![joined(chunks)],
        ).published,
        run_stream(builder, chunks).builder == run_stream(builder, seq![joined(chunks)]).builder,
        run_stream(builder, chunks).rest == run_stream(builder, seq![joined(chunks)]).rest,
        run_stream(builder, chunks).error is None,
{
    let bytes = joined(chunks);
    let empty = Seq::<u8>::empty();
    let whole = run(builder, bytes);
    let one = seq![bytes];
    assert(empty + bytes =~= bytes);
    assert(one.drop_first() =~= Seq::<Seq<u8>>::empty());
    assert(run_chunks(whole.builder, whole.rest, one.drop_first()) == (Outcome {
        builder: whole.builder,
        published: seq![],
        rest: whole.rest,
        error: None,
    }));
    assert(whole.published + Seq::<MatchedFileView>::empty() =~= whole.published);
    assert(run_chunks(builder, empty, one).error == whole.error);
    assert(empty + joined(chunks) =~= bytes);
    assert(first_newline(empty) is None) by {
        lemma_first_occurrence(empty, seq![NEWLINE]);
        if first_newline(empty) is Some {
            lemma_newline_at(empty, first_newline(empty).unwrap());
        }
    }
    lemma_any_chunks_read_as_one(builder, empty, chunks);
}

/// The bytes are one record: they end with a newline and hold no other.
pub open spec fn is_record(bytes: Seq<u8>) -> bool {
    &&& bytes.len() > 0
    &&& bytes.last() == NEWLINE
    &&& forall|j: int| 0 <= j < bytes.len() - 1 ==> bytes[j] != NEWLINE
}

/// A record at the front of the bytes is taken in, and what follows it is
/// read after it.
pub proof fn lemma_record_read_first(builder: BuilderView, record: Seq<u8>, after: Seq<u8>)
    requires
        is_record(record),
    ensures
        run(builder, record + after) == match step(builder, record) {
            Ok((next, file)) => Outcome {
                builder: run(next, after).builder,
                published: completed(file) + run(next, after).published,
                rest: run(next, after).rest,
                error: run(next, after).error,
            },
            Err(error) => Outcome { builder, published: seq![], rest: after, error: Some(error) },
        },
{
    let whole = record + after;
    let at = record.len() - 1;
    assert forall|j: int| 0 <= j < at implies !occurs_at(whole, seq![NEWLINE], j) by {
        lemma_newline_at(whole, j);
    }
    lemma_newline_at(whole, at);
    lemma_is_first_occurrence(whole, seq![NEWLINE], at);
    assert(whole.subrange(0, at + 1) =~= record);
    assert(whole.subrange(at + 1, whole.len() as int) =~= after);
}

/// A stream of three records, `begin` with a path, a line, and `end`, cut
/// into any chunks, gives exactly one file: it has that path and that one
/// line. Nothing is left over and nothing is half gathered.
pub proof fn lemma_one_file_from_any_chunks(
    chunks: Seq<Seq<u8>>,
    begin: Seq<u8>,
    line: Seq<u8>,
    end: Seq<u8>,
    path: Seq<char>,
    found: LineView,
)
    requires
        joined(chunks) == begin + line + end,
        is_record(begin),
        is_record(line),
        is_record(end),
        valid_utf8(begin),
        valid_utf8(line),
        valid_utf8(end),
        record_of_text(decode_utf8(begin)) == Ok::<RecordView, WorkerError>(
            RecordView::Begin { path },
        ),
        record_of_text(decode_utf8(line)) == Ok::<RecordView, WorkerError>(
            RecordView::Line { line: found },
        ),
        record_of_text(decode_utf8(end)) == Ok::<RecordView, WorkerError>(RecordView::End),
    ensures
        run_stream(BuilderView::empty(), chunks) == (Outcome {
            builder: BuilderView::empty(),
            published: seq![MatchedFileView { file_path: path, lines: seq![found] }],
            rest: seq![],
            error: None,
        }),
{
    let start = BuilderView::empty();
    let named = BuilderView { file_path: path, lines: seq![] };
    let filled = BuilderView { file_path: path, lines: seq![found] };
    let file = MatchedFileView { file_path: path, lines: seq![found] };
    let none = Seq::<u8>::empty();
    let bytes = begin + line + end;
    assert(Seq::<LineView>::empty().push(found) =~= seq![found]);
    assert(step(start, begin) == Ok::<(BuilderView, Option<MatchedFileView>), WorkerError>(
        (named, None),
    ));
    assert(step(named, line) == Ok::<(BuilderView, Option<MatchedFileView>), WorkerError>(
        (filled, None),
    ));
    assert(step(filled, end) == Ok::<(BuilderView, Option<MatchedFileView>), WorkerError>(
        (start, Some(file)),
    ));
    lemma_first_occurrence(none, seq![NEWLINE]);
    assert(first_newline(none) is None) by {
        if first_newline(none) is Some {
            lemma_newline_at(none, first_newline(none).unwrap());
        }
    }
    let last = run(start, none);
    assert(last == (Outcome { builder: start, published: seq![], rest: none, error: None }));
    assert(end + none =~= end);
    lemma_record_read_first(filled, end, none);
    let third = run(filled, end);
    assert(third.published =~= seq![file]);
    lemma_record_read_first(named, line, end);
    let second = run(named, line + end);
    assert(second.published =~= seq![file]);
    assert(begin + (line + end) =~= bytes);
    lemma_record_read_first(start, begin, line + end);
    let whole = run(start, bytes);
    assert(whole.published =~= seq![file]);
    assert(whole == (Outcome { builder: start, published: seq![file], rest: none, error: None }));
    let one = seq![bytes];
    assert(none + bytes =~= bytes);
    assert(one.drop_first() =~= Seq::<Seq<u8>>::empty());
    assert(run_chunks(start, none, one.drop_first()) == (Outcome {
        builder: start,
        published: seq![],
        rest: none,
        error: None,
    }));
    assert(seq![file] + Seq::<MatchedFileView>::empty() =~= seq![file]);
    assert(run_chunks(start, none, one) == whole);
    assert(run_last(start, none) == (Outcome {
        builder: start,
        published: seq![],
        rest: none,
        error: None,
    }));
    assert(run_stream(start, one) == whole);
    lemma_stream_in_any_chunks(start, chunks);
    assert(run_stream(start, chunks).published =~= seq![file]);
}

/// Takes one record, given as bytes, into the builder: see [`step`].
pub fn take_record(builder: &mut MatchedFileBuilder, record: &[u8]) -> (taken: Result<
    Option<MatchedFile>,
    WorkerError,
>)
    requires
        old(builder).wf(),
    ensures
        final(builder).wf(),
        match taken {
            Ok(file) => step(old(builder)@, record@) == Ok::<
                (BuilderView, Option<MatchedFileView>),
                WorkerError,
            >((final(builder)@, file_view(file))),
            Err(error) => step(old(builder)@, record@) == Err::<
                (BuilderView, Option<MatchedFileView>),
                WorkerError,
            >(error) && final(builder)@ == old(builder)@,
        },
        taken matches Ok(Some(file)) ==> file.wf(),
{
    let text = match text_of(record) {
        Some(text) => text,
        None => {
            return Err(WorkerError::NotText);
        },
    };
    proof {
        encode_utf8_decode_utf8(text@);
    }
    match decode_record(text) {
        Ok(record) => Ok(builder.apply(record)),
        Err(error) => Err(error),
    }
}

/// The offset of the first newline at or after `from`.
pub fn find_newline(bytes: &Vec<u8>, from: usize) -> (found: Option<usize>)
    requires
        from <= bytes.len(),
    ensures
        match found {
            Some(at) => from <= at < bytes.len() && first_newline(bytes@.skip(from as int))
                == Some(at - from),
            None => first_newline(bytes@.skip(from as int)) is None,
        },
{
    let ghost left = bytes@.skip(from as int);
    let mut at = from;
    while at < bytes.len()
        invariant
            from <= at <= bytes.len(),
            left == bytes@.skip(from as int),
            forall|j: int| from <= j < at ==> bytes[j] != NEWLINE,
        decreases bytes.len() - at,
    {
        if bytes[at] == NEWLINE {
            proof {
                assert(left.subrange(at - from, at - from + 1) =~= seq![NEWLINE]);
                assert forall|j: int| 0 <= j < at - from implies !occurs_at(
                    left,
                    seq![NEWLINE],
                    j,
                ) by {
                    if occurs_at(left, seq![NEWLINE], j) {
                        assert(left.subrange(j, j + 1)[0] == left[j]);
                        assert(left[j] == bytes[from + j]);
                    }
                }
                lemma_is_first_occurrence(left, seq![NEWLINE], at - from);
            }
            return Some(at);
        }
        at += 1;
    }
    proof {
        lemma_first_occurrence(left, seq![NEWLINE]);
        if first_newline(left) is Some {
            let j = first_newline(left).unwrap();
            assert(left.subrange(j, j + 1)[0] == left[j]);
            assert(left[j] == bytes[from + j]);
        }
    }
    None
}

/// What a parser stands for: the bytes that it has not yet taken as
/// records, and the file that it is gathering.
pub struct ParserView {
    pub buffer: Seq<u8>,
    pub builder: BuilderView,
}

/// Cuts the bytes of the search tool's output into records and gathers the
/// files that they describe.
pub struct StreamingResultParser {
    buffer: Vec<u8>,
    builder: MatchedFileBuilder,
}

impl View for StreamingResultParser {
    type V = ParserView;

    closed spec fn view(&self) -> ParserView {
        ParserView { buffer: self.buffer@, builder: self.builder@ }
    }
}

/// What a reading returns: its error, if it stopped on one.
pub open spec fn outcome_result(outcome: Outcome) -> Result<(), WorkerError> {
    match outcome.error {
        Some(error) => Err(error),
        None => Ok(()),
    }
}

impl StreamingResultParser {
    /// Every line gathered is valid.
    pub open spec fn wf(&self) -> bool {
        self@.builder.wf()
    }

    /// A parser that has read nothing.
    pub fn new() -> (parser: StreamingResultParser)
        ensures
            parser.wf(),
            parser@ == (ParserView { buffer: seq![], builder: BuilderView::empty() }),
    {
        StreamingResultParser { buffer: Vec::new(), builder: MatchedFileBuilder::default() }
    }

    /// Reads the next chunk of the stream: the bytes left from before and
    /// the chunk are read as [`run`] says. The files completed are added to
    /// `results`; the bytes after the last newline stay for the next chunk.
    pub fn feed(&mut self, chunk: &[u8], results: &mut Vec<MatchedFile>) -> (fed: Result<
        (),
        WorkerError,
    >)
        requires
            old(self).wf(),
        ensures
            final(self).wf(),
            final(self)@.builder == run(old(self)@.builder, old(self)@.buffer + chunk@).builder,
            final(self)@.buffer == run(old(self)@.builder, old(self)@.buffer + chunk@).rest,
            files_view(final(results)@) == files_view(old(results)@) + run(
                old(self)@.builder,
                old(self)@.buffer + chunk@,
            ).published,
            fed == outcome_result(run(old(self)@.builder, old(self)@.buffer + chunk@)),
            forall|i: int|
                old(results).len() <= i < final(results).len() ==> #[trigger] final(results)[i].wf(),
            forall|i: int| 0 <= i < old(results).len() ==> final(results)[i] == old(results)[i],
    {
        let ghost all = self.buffer@ + chunk@;
        let ghost first = self.builder@;
        let ghost had = files_view(results@);
        let ghost had_files = results@;
        let mut k: usize = 0;
        while k < chunk.len()
            invariant
                k <= chunk.len(),
                self.buffer@ == old(self).buffer@ + chunk@.subrange(0, k as int),
                self.builder == old(self).builder,
            decreases chunk.len() - k,
        {
            let ghost before = self.buffer@;
            self.buffer.push(chunk[k]);
            proof {
                assert(self.buffer@ =~= old(self).buffer@ + chunk@.subrange(0, k + 1));
            }
            k += 1;
        }
        proof {
            assert(chunk@.subrange(0, chunk@.len() as int) =~= chunk@);
            assert(all.skip(0) =~= all);
            assert(had + run(first, all).published =~= files_view(results@) + run(
                first,
                all,
            ).published);
        }
        let mut start: usize = 0;
        let mut failed: Option<WorkerError> = None;
        loop
            invariant_except_break
                failed is None,
                had + run(first, all).published == files_view(results@) + run(
                    self.builder@,
                    all.skip(start as int),
                ).published,
                run(first, all).builder == run(self.builder@, all.skip(start as int)).builder,
                run(first, all).rest == run(self.builder@, all.skip(start as int)).rest,
                run(first, all).error == run(self.builder@, all.skip(start as int)).error,
            invariant
                self.buffer@ == all,
                start <= all.len(),
                self.builder.wf(),
                results.len() >= had_files.len(),
                forall|i: int| 0 <= i < had_files.len() ==> results[i] == had_files[i],
                forall|i: int| had_files.len() <= i < results.len() ==> (#[trigger] results[i]).wf(),
            ensures
                self.buffer@ == all,
                start <= all.len(),
                self.builder.wf(),
                results.len() >= had_files.len(),
                forall|i: int| 0 <= i < had_files.len() ==> results[i] == had_files[i],
                forall|i: int| had_files.len() <= i < results.len() ==> (#[trigger] results[i]).wf(),
                had + run(first, all).published == files_view(results@),
                run(first, all).builder == self.builder@,
                run(first, all).rest == all.skip(start as int),
                run(first, all).error == failed,
            decreases all.len() - start,
        {
            let ghost left = all.skip(start as int);
            let ghost now = self.builder@;
            let ghost seen = files_view(results@);
            let end = match find_newline(&self.buffer, start) {
                Some(at) => at + 1,
                None => {
                    proof {
                        assert(seen + Seq::<MatchedFileView>::empty() =~= seen);
                    }
                    break ;
                },
            };
            proof {
                assert(left.subrange(0, end - start) =~= all.subrange(start as int, end as int));
                assert(left.subrange(end - start, left.len() as int) =~= all.skip(end as int));
            }
            let record = vstd::slice::slice_subrange(self.buffer.as_slice(), start, end);
            let taken = take_record(&mut self.builder, record);
            start = end;
            match taken {
                Ok(Some(file)) => {
                    results.push(file);
                    proof {
                        let later = run(self.builder@, all.skip(start as int)).published;
                        assert(files_view(results@) =~= seen.push(file@));
                        assert(files_view(results@) + later =~= seen + (seq![file@] + later));
                    }
                },
                Ok(None) => {
                    proof {
                        let later = run(self.builder@, all.skip(start as int)).published;
                        assert(Seq::<MatchedFileView>::empty() + later =~= later);
                    }
                },
                Err(error) => {
                    failed = Some(error);
                    proof {
                        assert(seen + Seq::<MatchedFileView>::empty() =~= seen);
                    }
                    break ;
                },
            }
        }
        let rest = self.buffer.split_off(start);
        self.buffer = rest;
        match failed {
            Some(error) => Err(error),
            None => Ok(()),
        }
    }

    /// Reads what is left when the stream has ended: see [`run_last`].
    pub fn finish(&mut self, results: &mut Vec<MatchedFile>) -> (fed: Result<(), WorkerError>)
        requires
            old(self).wf(),
        ensures
            final(self).wf(),
            final(self)@.builder == run_last(old(self)@.builder, old(self)@.buffer).builder,
            final(self)@.buffer == run_last(old(self)@.builder, old(self)@.buffer).rest,
            files_view(final(results)@) == files_view(old(results)@) + run_last(
                old(self)@.builder,
                old(self)@.buffer,
            ).published,
            fed == outcome_result(run_last(old(self)@.builder, old(self)@.buffer)),
            forall|i: int|
                old(results).len() <= i < final(results).len() ==> #[trigger] final(results)[i].wf(),
            forall|i: int| 0 <= i < old(results).len() ==> final(results)[i] == old(results)[i],
    {
        let ghost seen = files_view(results@);
        if self.buffer.len() == 0 {
            proof {
                assert(seen + Seq::<MatchedFileView>::empty() =~= seen);
            }
            return Ok(());
        }
        let mut last: Vec<u8> = Vec::new();
        std::mem::swap(&mut self.buffer, &mut last);
        match take_record(&mut self.builder, last.as_slice()) {
            Ok(Some(file)) => {
                results.push(file);
                proof {
                    assert(files_view(results@) =~= seen + seq![file@]);
                }
                Ok(())
            },
            Ok(None) => {
                proof {
                    assert(seen + Seq::<MatchedFileView>::empty() =~= seen);
                }
                Ok(())
            },
            Err(error) => {
                proof {
                    assert(seen + Seq::<MatchedFileView>::empty() =~= seen);
                }
                Err(error)
            },
        }
    }
}

/// What a look at the search tool's process has shown, without waiting
/// for it.
#[derive(Debug, Clone, Copy, PartialEq, Eq, Structural)]
pub enum ProcessStatus {
    /// It is still running.
    Running,
    /// It has exited.
    Exited,
    /// The look failed, so nothing more will come of the process.
    Unknown,
}

/// Where a worker is in its life.
#[derive(Debug, Clone, Copy, PartialEq, Eq, Structural)]
pub enum WorkerState {
    /// The process runs or its output is still being read.
    Running,
    /// The process is gone and its output has been read to the end.
    Finished,
    /// The worker was stopped and torn down.
    Killed,
}

/// What is to be done to tear a worker down, in this order.
#[derive(Debug, Clone, Copy, PartialEq, Eq, Structural)]
pub struct Teardown {
    /// Terminate the process, so that it writes no more.
    pub terminate: bool,
    /// Then wait for the reader, which ends when the output does.
    pub join: bool,
}

/// Whether a worker has finished: its reader is done and its process is not
/// running any more.
pub fn finished(reader_done: bool, status: ProcessStatus) -> (done: bool)
    ensures
        done == (reader_done && status != ProcessStatus::Running),
{
    reader_done && !matches!(status, ProcessStatus::Running)
}

impl WorkerState {
    /// The state after a look at the reader and the process: a running
    /// worker that has finished is finished; nothing else changes.
    pub fn polled(self, reader_done: bool, status: ProcessStatus) -> (next: WorkerState)
        ensures
            next == if self == WorkerState::Running && reader_done && status
                != ProcessStatus::Running {
                WorkerState::Finished
            } else {
                self
            },
    {
        match self {
            WorkerState::Running => if finished(reader_done, status) {
                WorkerState::Finished
            } else {
                WorkerState::Running
            },
            other => other,
        }
    }

    /// Stops the worker. Whether it was running or had finished, its process
    /// is terminated and then its reader is waited for; a worker that was
    /// stopped before needs nothing more. Afterwards it is killed in any
    /// case, whatever comes of the two steps.
    pub fn kill(self) -> (stopped: (WorkerState, Teardown))
        ensures
            stopped.0 == WorkerState::Killed,
            stopped.1 == (Teardown {
                terminate: self != WorkerState::Killed,
                join: self != WorkerState::Killed,
            }),
    {
        match self {
            WorkerState::Killed => (
                WorkerState::Killed,
                Teardown { terminate: false, join: false },
            ),
            _ => (WorkerState::Killed, Teardown { terminate: true, join: true }),
        }
    }
}

} // verus!
