//! Telling references to a class from chance hits.
//!
//! A search for the parts of a fully-qualified name finds every line that
//! holds the bare identifier. Here each submatch is narrowed to the part of
//! the name that it holds, and a file is kept only where its match lines
//! bear the name out: a package declaration or an import of the name, and
//! the identifier itself.
use crate::fqcn::{lemma_fqcn_is_its_parts, lemma_fqcn_parts_are_text, Fqcn, FqcnView};
use crate::matched_file::{
    adjusted_ranges, files_view, lines_view, narrows, ranges, Line, LineView, MatchedFile,
    MatchedFileView,
};
use crate::text::{
    begins_with, byte_len, contains, find, first_occurrence, lemma_first_occurrence,
    lemma_occurrence_on_boundaries, occurs_in, starts_with,
};
use std::ops::Range;
use vstd::prelude::*;
use vstd::string::*;
use vstd::utf8::*;

verus! {

/// What a package declaration begins with.
pub const PACKAGE: &'static str = "package ";

/// What an import begins with.
pub const IMPORT: &'static str = "import ";

/// Which part of the name a submatch holds.
#[derive(Debug, Clone, Copy, PartialEq, Eq, Structural)]
pub enum MatchType {
    /// No part of the name.
    Arbitrary,
    /// The package.
    Package,
    /// The whole name.
    FqcnFull,
    /// The identifier alone.
    FqcnIdent,
}

/// How much a file must show to be kept.
#[derive(Debug, Clone, Copy, PartialEq, Eq, Structural)]
pub enum Strictness {
    /// A package declaration or an import of the name, and with it a
    /// submatch that holds the identifier or the whole name.
    Corroborated,
    /// The whole name in a submatch, or an import of the name, or a package
    /// declaration together with the identifier.
    Lenient,
}

/// What the match lines of a file have shown.
#[derive(Debug, Clone, Copy, PartialEq, Eq, Structural)]
pub struct Evidence {
    /// A line declares the package.
    pub package: bool,
    /// A line imports the name.
    pub import: bool,
    /// A submatch holds the identifier or the whole name.
    pub ident: bool,
    /// A submatch holds the whole name.
    pub fqcn: bool,
}

impl Evidence {
    /// Nothing seen.
    pub open spec fn none() -> Evidence {
        Evidence { package: false, import: false, ident: false, fqcn: false }
    }

    /// What was seen in either.
    pub open spec fn or(self, other: Evidence) -> Evidence {
        Evidence {
            package: self.package || other.package,
            import: self.import || other.import,
            ident: self.ident || other.ident,
            fqcn: self.fqcn || other.fqcn,
        }
    }

    /// Whether this is enough to keep a file.
    pub open spec fn suffices(self, strictness: Strictness) -> bool {
        match strictness {
            Strictness::Corroborated => (self.package || self.import) && self.ident,
            Strictness::Lenient => self.fqcn || self.import || (self.package && self.ident),
        }
    }

    /// Whether this is enough to keep a file.
    pub fn is_enough(&self, strictness: Strictness) -> (enough: bool)
        ensures
            enough == self.suffices(strictness),
    {
        match strictness {
            Strictness::Corroborated => (self.package || self.import) && self.ident,
            Strictness::Lenient => self.fqcn || self.import || (self.package && self.ident),
        }
    }
}

/// Where the package of the name first occurs in a text. The package of a
/// name that has none occurs nowhere.
pub open spec fn package_occurrence(fqcn: FqcnView, text: Seq<u8>) -> Option<int> {
    if fqcn.has_package() {
        first_occurrence(text, fqcn.package_bytes())
    } else {
        None
    }
}

/// The part of the name that the text of a submatch holds, and where in the
/// text it stands. On a line that declares the package, the package comes
/// first; everywhere the whole name is looked for, then the package, then
/// the identifier, and the first that occurs is taken where it first occurs.
/// A submatch that holds none of them is left as it is.
pub open spec fn classify(fqcn: FqcnView, package_line: bool, matched: Seq<u8>) -> (
    MatchType,
    (int, int),
) {
    let whole = first_occurrence(matched, fqcn.bytes());
    let package = package_occurrence(fqcn, matched);
    let ident = first_occurrence(matched, fqcn.ident_bytes());
    if package_line && package is Some {
        (MatchType::Package, (package.unwrap(), package.unwrap() + fqcn.package_bytes().len()))
    } else if whole is Some {
        (MatchType::FqcnFull, (whole.unwrap(), whole.unwrap() + fqcn.bytes().len()))
    } else if package is Some {
        (MatchType::Package, (package.unwrap(), package.unwrap() + fqcn.package_bytes().len()))
    } else if ident is Some {
        (MatchType::FqcnIdent, (ident.unwrap(), ident.unwrap() + fqcn.ident_bytes().len()))
    } else {
        (MatchType::Arbitrary, (0, matched.len() as int))
    }
}

/// The line is a match line that declares the package of the name. No
/// line declares the package of a name that has none.
pub open spec fn declares_package(fqcn: FqcnView, line: LineView) -> bool {
    &&& line.submatches.len() > 0
    &&& begins_with(line.bytes(), PACKAGE.spec_bytes())
    &&& package_occurrence(fqcn, line.bytes()) is Some
}

/// The line is a match line that imports the name.
pub open spec fn imports_name(fqcn: FqcnView, line: LineView) -> bool {
    &&& line.submatches.len() > 0
    &&& begins_with(line.bytes(), IMPORT.spec_bytes())
    &&& occurs_in(line.bytes(), fqcn.bytes())
}

/// What the `i`-th submatch of the line is classified as.
pub open spec fn classified(fqcn: FqcnView, line: LineView, i: int) -> (MatchType, (int, int)) {
    classify(fqcn, declares_package(fqcn, line), line.matched(i))
}

/// For each submatch of the line, where in it the part of the name stands.
pub open spec fn line_parts(fqcn: FqcnView, line: LineView) -> Seq<(int, int)> {
    Seq::new(line.submatches.len(), |i: int| classified(fqcn, line, i).1)
}

/// The line with each submatch narrowed to the part of the name it holds.
pub open spec fn processed_line(fqcn: FqcnView, line: LineView) -> LineView {
    LineView {
        num: line.num,
        text: line.text,
        submatches: adjusted_ranges(line.submatches, line_parts(fqcn, line)),
    }
}

/// What the first `upto` submatches of the line show.
pub open spec fn submatch_evidence(fqcn: FqcnView, line: LineView, upto: int) -> Evidence
    decreases upto,
{
    if upto <= 0 {
        Evidence::none()
    } else {
        let kind = classified(fqcn, line, upto - 1).0;
        submatch_evidence(fqcn, line, upto - 1).or(
            Evidence {
                package: false,
                import: false,
                ident: kind == MatchType::FqcnFull || kind == MatchType::FqcnIdent,
                fqcn: kind == MatchType::FqcnFull,
            },
        )
    }
}

/// What the line shows.
pub open spec fn line_evidence(fqcn: FqcnView, line: LineView) -> Evidence {
    submatch_evidence(fqcn, line, line.submatches.len() as int).or(
        Evidence {
            package: declares_package(fqcn, line),
            import: imports_name(fqcn, line),
            ident: false,
            fqcn: false,
        },
    )
}

/// What the first `upto` lines show together.
pub open spec fn lines_evidence(fqcn: FqcnView, lines: Seq<LineView>, upto: int) -> Evidence
    decreases upto,
{
    if upto <= 0 {
        Evidence::none()
    } else {
        lines_evidence(fqcn, lines, upto - 1).or(line_evidence(fqcn, lines[upto - 1]))
    }
}

/// What the file shows.
pub open spec fn file_evidence(fqcn: FqcnView, file: MatchedFileView) -> Evidence {
    lines_evidence(fqcn, file.lines, file.lines.len() as int)
}

/// The file with every line processed.
pub open spec fn processed_file(fqcn: FqcnView, file: MatchedFileView) -> MatchedFileView {
    MatchedFileView {
        file_path: file.file_path,
        lines: Seq::new(file.lines.len(), |i: int| processed_line(fqcn, file.lines[i])),
    }
}

/// The files that show enough, processed, in the order they came in.
pub open spec fn processed_files(
    fqcn: FqcnView,
    files: Seq<MatchedFileView>,
    strictness: Strictness,
) -> Seq<MatchedFileView>
    decreases files.len(),
{
    if files.len() == 0 {
        seq![]
    } else {
        let rest = processed_files(fqcn, files.drop_first(), strictness);
        if file_evidence(fqcn, files[0]).suffices(strictness) {
            seq![processed_file(fqcn, files[0])] + rest
        } else {
            rest
        }
    }
}

/// The part of the name that `text` holds, and where: see [`classify`].
pub fn classify_submatch(fqcn: &Fqcn, package_line: bool, text: &str) -> (found: (
    MatchType,
    Range<usize>,
))
    requires
        fqcn.wf(),
    ensures
        (found.0, (found.1.start as int, found.1.end as int)) == classify(
            fqcn@,
            package_line,
            text.spec_bytes(),
        ),
        text.spec_bytes().len() > 0 ==> found.1.start < found.1.end && narrows(
            text.spec_bytes(),
            (found.1.start as int, found.1.end as int),
        ),
{
    let value = fqcn.value();
    let package = fqcn.package();
    let ident = fqcn.ident();
    let package_at = if fqcn.has_package() {
        find(text, package)
    } else {
        None
    };
    let text_len = byte_len(text);
    proof {
        let hay = text.spec_bytes();
        lemma_fqcn_parts_are_text(fqcn@);
        lemma_fqcn_is_its_parts(fqcn@);
        encode_utf8_valid_utf8(text@);
        is_char_boundary_start_end_of_seq(hay);
        lemma_first_occurrence(hay, fqcn@.bytes());
        lemma_first_occurrence(hay, fqcn@.package_bytes());
        lemma_first_occurrence(hay, fqcn@.ident_bytes());
        if first_occurrence(hay, fqcn@.bytes()) is Some {
            lemma_occurrence_on_boundaries(
                hay,
                fqcn@.bytes(),
                first_occurrence(hay, fqcn@.bytes()).unwrap(),
            );
        }
        if fqcn@.has_package() && first_occurrence(hay, fqcn@.package_bytes()) is Some {
            lemma_occurrence_on_boundaries(
                hay,
                fqcn@.package_bytes(),
                first_occurrence(hay, fqcn@.package_bytes()).unwrap(),
            );
        }
        if first_occurrence(hay, fqcn@.ident_bytes()) is Some {
            lemma_occurrence_on_boundaries(
                hay,
                fqcn@.ident_bytes(),
                first_occurrence(hay, fqcn@.ident_bytes()).unwrap(),
            );
        }
    }
    if package_line {
        if let Some(at) = package_at {
            return (MatchType::Package, at..at + byte_len(package));
        }
    }
    if let Some(at) = find(text, value) {
        (MatchType::FqcnFull, at..at + byte_len(value))
    } else if let Some(at) = package_at {
        (MatchType::Package, at..at + byte_len(package))
    } else if let Some(at) = find(text, ident) {
        (MatchType::FqcnIdent, at..at + byte_len(ident))
    } else {
        (MatchType::Arbitrary, 0..text_len)
    }
}

/// Narrows each submatch of the line to the part of the name that it holds
/// and says what the line shows.
pub fn process_line(fqcn: &Fqcn, line: &mut Line) -> (seen: Evidence)
    requires
        fqcn.wf(),
        old(line).wf(),
    ensures
        final(line).wf(),
        final(line)@ == processed_line(fqcn@, old(line)@),
        seen == line_evidence(fqcn@, old(line)@),
{
    let ghost before = line@;
    let count = line.num_submatches();
    let mut parts: Vec<Range<usize>> = Vec::new();
    let mut ident = false;
    let mut whole = false;
    let value = line.value();
    let package_line = count > 0 && fqcn.has_package() && starts_with(value, PACKAGE) && contains(
        value,
        fqcn.package(),
    );
    let import_line = count > 0 && starts_with(value, IMPORT) && contains(value, fqcn.value());
    let texts = line.matched_texts();
    let mut i: usize = 0;
    while i < texts.len()
        invariant
            fqcn.wf(),
            before.wf(),
            i <= texts.len(),
            texts.len() == before.submatches.len(),
            parts.len() == i,
            package_line == declares_package(fqcn@, before),
            forall|k: int|
                0 <= k < texts.len() ==> (#[trigger] texts[k]).spec_bytes() == before.matched(k),
            forall|k: int|
                0 <= k < i ==> (#[trigger] ranges(parts@)[k]) == line_parts(fqcn@, before)[k]
                    && narrows(before.matched(k), ranges(parts@)[k]),
            submatch_evidence(fqcn@, before, i as int) == (Evidence {
                package: false,
                import: false,
                ident,
                fqcn: whole,
            }),
        decreases texts.len() - i,
    {
        let ghost parts_before = ranges(parts@);
        let (kind, part) = classify_submatch(fqcn, package_line, texts[i]);
        proof {
            assert(before.submatches[i as int].0 < before.submatches[i as int].1);
            assert(before.matched(i as int).len() > 0);
        }
        parts.push(part);
        match kind {
            MatchType::FqcnFull => {
                ident = true;
                whole = true;
            },
            MatchType::FqcnIdent => {
                ident = true;
            },
            _ => {},
        }
        proof {
            let after = ranges(parts@);
            assert forall|k: int| 0 <= k < i + 1 implies (#[trigger] after[k]) == line_parts(
                fqcn@,
                before,
            )[k] && narrows(before.matched(k), after[k]) by {
                if k < i {
                    assert(after[k] == parts_before[k]);
                }
            }
        }
        i += 1;
    }
    proof {
        assert(ranges(parts@) =~= line_parts(fqcn@, before));
    }
    line.adjust_submatches_to(&parts);
    Evidence { package: package_line, import: import_line, ident, fqcn: whole }
}

/// Processes every line of the file and says what the lines show together.
pub fn process_file(fqcn: &Fqcn, file: &mut MatchedFile) -> (seen: Evidence)
    requires
        fqcn.wf(),
        old(file).wf(),
    ensures
        final(file).wf(),
        final(file)@ == processed_file(fqcn@, old(file)@),
        seen == file_evidence(fqcn@, old(file)@),
{
    let ghost before = file@;
    let mut seen = Evidence { package: false, import: false, ident: false, fqcn: false };
    let lines = file.lines_mut();
    let count = lines.len();
    let mut i: usize = 0;
    while i < count
        invariant
            fqcn.wf(),
            before.wf(),
            i <= count,
            count == before.lines.len(),
            lines.len() == count,
            seen == lines_evidence(fqcn@, before.lines, i as int),
            forall|k: int| 0 <= k < i ==> (#[trigger] lines[k])@ == processed_line(
                fqcn@,
                before.lines[k],
            ) && lines[k].wf(),
            forall|k: int| i <= k < count ==> (#[trigger] lines[k])@ == before.lines[k],
        decreases count - i,
    {
        proof {
            assert(lines[i as int]@ == before.lines[i as int]);
            assert(before.lines[i as int].wf());
        }
        let shown = process_line(fqcn, &mut lines[i]);
        seen = Evidence {
            package: seen.package || shown.package,
            import: seen.import || shown.import,
            ident: seen.ident || shown.ident,
            fqcn: seen.fqcn || shown.fqcn,
        };
        i += 1;
    }
    proof {
        assert(lines_view(lines@) =~= processed_file(fqcn@, before).lines);
    }
    seen
}

/// Processes the files and keeps those whose match lines show enough for
/// `strictness`, in the order they came in.
pub fn process_matched_file_fqcn_with(
    fqcn: &Fqcn,
    matched_files: Vec<MatchedFile>,
    strictness: Strictness,
) -> (kept: Vec<MatchedFile>)
    requires
        fqcn.wf(),
        forall|i: int| 0 <= i < matched_files.len() ==> (#[trigger] matched_files[i]).wf(),
    ensures
        files_view(kept@) == processed_files(fqcn@, files_view(matched_files@), strictness),
        forall|i: int| 0 <= i < kept.len() ==> (#[trigger] kept[i]).wf(),
{
    let ghost all = files_view(matched_files@);
    let mut kept: Vec<MatchedFile> = Vec::new();
    proof {
        assert(all.skip(0) =~= all);
        assert(files_view(kept@) + processed_files(fqcn@, all, strictness) =~= processed_files(
            fqcn@,
            all,
            strictness,
        ));
    }
    for file in files: matched_files
        invariant
            fqcn.wf(),
            files.seq() == matched_files@,
            all == files_view(matched_files@),
            forall|i: int| 0 <= i < matched_files.len() ==> (#[trigger] matched_files[i]).wf(),
            forall|i: int| 0 <= i < kept.len() ==> (#[trigger] kept[i]).wf(),
            files_view(kept@) + processed_files(fqcn@, all.skip(files.index()), strictness)
                == processed_files(fqcn@, all, strictness),
    {
        let ghost at = files.index();
        let ghost kept_before = files_view(kept@);
        let mut file = file;
        proof {
            assert(file == matched_files[at]);
            assert(all.skip(at)[0] == file@);
            assert(all.skip(at).drop_first() =~= all.skip(at + 1));
        }
        let seen = process_file(fqcn, &mut file);
        if seen.is_enough(strictness) {
            kept.push(file);
            proof {
                let rest = processed_files(fqcn@, all.skip(at + 1), strictness);
                assert(files_view(kept@) =~= kept_before.push(file@));
                assert(files_view(kept@) + rest =~= kept_before + (seq![file@] + rest));
            }
        }
    }
    proof {
        assert(all.skip(all.len() as int) =~= Seq::<MatchedFileView>::empty());
        assert(files_view(kept@) + Seq::<MatchedFileView>::empty() =~= files_view(kept@));
    }
    kept
}

/// Processes the files and keeps each in which a match line declares the
/// package or imports the name and a submatch holds the identifier or the
/// whole name.
pub fn process_matched_file_fqcn(fqcn: &Fqcn, matched_files: Vec<MatchedFile>) -> (kept: Vec<
    MatchedFile,
>)
    requires
        fqcn.wf(),
        forall|i: int| 0 <= i < matched_files.len() ==> (#[trigger] matched_files[i]).wf(),
    ensures
        files_view(kept@) == processed_files(
            fqcn@,
            files_view(matched_files@),
            Strictness::Corroborated,
        ),
        forall|i: int| 0 <= i < kept.len() ==> (#[trigger] kept[i]).wf(),
{
    process_matched_file_fqcn_with(fqcn, matched_files, Strictness::Corroborated)
}

} // verus!
