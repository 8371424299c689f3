//! Renaming: what each submatch of the found files is replaced by.
//!
//! Once the submatches have been narrowed to parts of the name that was
//! searched for, a rename replaces each part by the same part of the new
//! name: the whole name by the whole name, the package by the package, the
//! identifier by the identifier.
use crate::fqcn::{parsed_fqcn, Fqcn, FqcnView};
use crate::fqcn_processor::MatchType;
use crate::matched_file::{
    lines_view, replaced_with, texts_bytes, Line, LineView, MatchedFile, MatchedFileView,
};
use crate::text::{byte_len, same_text};
use vstd::prelude::*;
use vstd::string::*;
use vstd::utf8::*;

verus! {

/// Which part of the name the text is: the identifier, the whole name or the
/// package, where it equals one of them.
pub open spec fn part_of(fqcn: FqcnView, text: Seq<u8>) -> MatchType {
    if text == fqcn.ident_bytes() {
        MatchType::FqcnIdent
    } else if text == fqcn.bytes() {
        MatchType::FqcnFull
    } else if fqcn.has_package() && text == fqcn.package_bytes() {
        MatchType::Package
    } else {
        MatchType::Arbitrary
    }
}

/// What the text becomes when `find` is renamed to `replacement`: the part
/// of `replacement` that the text is of `find`, or the text itself where it
/// is no part of `find`.
pub open spec fn renamed(find: FqcnView, replacement: FqcnView, text: Seq<u8>) -> Seq<u8> {
    match part_of(find, text) {
        MatchType::FqcnIdent => replacement.ident_bytes(),
        MatchType::FqcnFull => replacement.bytes(),
        MatchType::Package => replacement.package_bytes(),
        MatchType::Arbitrary => text,
    }
}

/// Which part of `fqcn` the text is.
pub fn match_type(fqcn: &Fqcn, text: &str) -> (kind: MatchType)
    requires
        fqcn.wf(),
    ensures
        kind == part_of(fqcn@, text.spec_bytes()),
{
    if same_text(text, fqcn.ident()) {
        MatchType::FqcnIdent
    } else if same_text(text, fqcn.value()) {
        MatchType::FqcnFull
    } else if fqcn.has_package() && same_text(text, fqcn.package()) {
        MatchType::Package
    } else {
        MatchType::Arbitrary
    }
}

/// What the text becomes when `find` is renamed to `replacement`.
pub fn replacement_for(find: &Fqcn, replacement: &Fqcn, text: &str) -> (renamed_text: String)
    requires
        find.wf(),
        replacement.wf(),
    ensures
        encode_utf8(renamed_text@) == renamed(find@, replacement@, text.spec_bytes()),
{
    match match_type(find, text) {
        MatchType::FqcnIdent => replacement.ident().to_owned(),
        MatchType::FqcnFull => replacement.value().to_owned(),
        MatchType::Package => replacement.package().to_owned(),
        MatchType::Arbitrary => text.to_owned(),
    }
}

/// How the submatches of the found files are replaced.
pub enum Renaming {
    /// Each part of `find` by the same part of `replacement`.
    Parts { find: Fqcn, replacement: Fqcn },
    /// Each submatch by the same text.
    Literal(String),
}

/// What a choice of two inputs stands for.
pub enum RenamingView {
    Parts { find: FqcnView, replacement: FqcnView },
    Literal(Seq<char>),
}

impl View for Renaming {
    type V = RenamingView;

    open spec fn view(&self) -> RenamingView {
        match self {
            Renaming::Parts { find, replacement } => RenamingView::Parts {
                find: find@,
                replacement: replacement@,
            },
            Renaming::Literal(text) => RenamingView::Literal(text@),
        }
    }
}

impl RenamingView {
    /// What the text of a submatch is replaced by.
    pub open spec fn text_for(self, matched: Seq<u8>) -> Seq<u8> {
        match self {
            RenamingView::Parts { find, replacement } => renamed(find, replacement, matched),
            RenamingView::Literal(text) => encode_utf8(text),
        }
    }

    /// What the submatches of the line are replaced by, in order.
    pub open spec fn texts_for(self, line: LineView) -> Seq<Seq<u8>> {
        Seq::new(line.submatches.len(), |i: int| self.text_for(line.matched(i)))
    }

    /// `new` is the file `old` with the submatches of every line replaced.
    pub open spec fn replaces_file(
        self,
        old: MatchedFileView,
        new: MatchedFileView,
    ) -> bool {
        &&& new.file_path == old.file_path
        &&& new.lines.len() == old.lines.len()
        &&& forall|k: int|
            0 <= k < new.lines.len() ==> replaced_with(
                old.lines[k],
                self.texts_for(old.lines[k]),
                #[trigger] new.lines[k],
            )
    }

    /// The renaming that the two inputs ask for. Where the searched text is
    /// a name with a package, parts are replaced by parts: those of the
    /// replacement text if that is a name too, else its own, which changes
    /// nothing. Where it is not, no structure of a name applies: every
    /// submatch is replaced by the replacement text, or by the searched text
    /// where there is no replacement text.
    pub open spec fn chosen(find: Seq<char>, replacement: Seq<char>) -> RenamingView {
        match parsed_fqcn(find) {
            Some(name) if name.has_package() => RenamingView::Parts {
                find: name,
                replacement: match parsed_fqcn(replacement) {
                    Some(other) => other,
                    None => name,
                },
            },
            _ => RenamingView::Literal(if replacement.len() == 0 { find } else { replacement }),
        }
    }
}

impl Renaming {
    /// The names in the renaming are valid.
    pub open spec fn wf(&self) -> bool {
        match self {
            Renaming::Parts { find, replacement } => find.wf() && replacement.wf(),
            Renaming::Literal(_) => true,
        }
    }

    /// The renaming that the two inputs ask for.
    pub fn chosen_for(find: &str, replacement: &str) -> (renaming: Renaming)
        ensures
            renaming.wf(),
            renaming@ == RenamingView::chosen(find@, replacement@),
    {
        match Fqcn::new(find) {
            Some(name) if name.has_package() => match Fqcn::new(replacement) {
                Some(other) => Renaming::Parts { find: name, replacement: other },
                None => {
                    let same = name.clone();
                    Renaming::Parts { find: name, replacement: same }
                },
            },
            _ => {
                proof {
                    encode_utf8_decode_utf8(replacement@);
                    assert(encode_utf8(Seq::<char>::empty()) =~= Seq::<u8>::empty());
                }
                if byte_len(replacement) == 0 {
                    Renaming::Literal(find.to_owned())
                } else {
                    Renaming::Literal(replacement.to_owned())
                }
            },
        }
    }

    /// What the text of a submatch is replaced by.
    pub fn replacement(&self, matched: &str) -> (text: String)
        requires
            self.wf(),
        ensures
            encode_utf8(text@) == self@.text_for(matched.spec_bytes()),
    {
        match self {
            Renaming::Parts { find, replacement } => replacement_for(find, replacement, matched),
            Renaming::Literal(text) => text.clone(),
        }
    }

    /// What the submatches of the line are replaced by, in order.
    pub fn replacements(&self, line: &Line) -> (texts: Vec<String>)
        requires
            self.wf(),
            line.wf(),
        ensures
            texts.len() == line@.submatches.len(),
            texts_bytes(texts@) == self@.texts_for(line@),
    {
        let matched = line.matched_texts();
        let mut texts: Vec<String> = Vec::new();
        let mut i: usize = 0;
        while i < matched.len()
            invariant
                self.wf(),
                i <= matched.len(),
                matched.len() == line@.submatches.len(),
                texts.len() == i,
                forall|k: int|
                    0 <= k < matched.len() ==> (#[trigger] matched[k]).spec_bytes()
                        == line@.matched(k),
                forall|k: int|
                    0 <= k < i ==> encode_utf8((#[trigger] texts[k])@) == self@.text_for(
                        line@.matched(k),
                    ),
            decreases matched.len() - i,
        {
            let text = self.replacement(matched[i]);
            texts.push(text);
            i += 1;
        }
        proof {
            assert(texts_bytes(texts@) =~= self@.texts_for(line@));
        }
        texts
    }

    /// The line with its submatches replaced.
    pub fn apply_to_line(&self, line: &Line) -> (replaced: Line)
        requires
            self.wf(),
            line.wf(),
        ensures
            replaced.wf(),
            replaced_with(line@, self@.texts_for(line@), replaced@),
    {
        let texts = self.replacements(line);
        line.replace_with(&texts)
    }

    /// The file with the submatches of every line replaced.
    pub fn apply_to_file(&self, file: &MatchedFile) -> (replaced: MatchedFile)
        requires
            self.wf(),
            file.wf(),
        ensures
            replaced.wf(),
            self@.replaces_file(file@, replaced@),
    {
        let lines = file.lines();
        let mut replaced: Vec<Line> = Vec::new();
        let mut i: usize = 0;
        while i < lines.len()
            invariant
                self.wf(),
                file.wf(),
                i <= lines.len(),
                replaced.len() == i,
                lines_view(lines@) == file@.lines,
                forall|k: int|
                    0 <= k < i ==> (#[trigger] replaced[k]).wf() && replaced_with(
                        file@.lines[k],
                        self@.texts_for(file@.lines[k]),
                        replaced[k]@,
                    ),
            decreases lines.len() - i,
        {
            proof {
                assert(file@.lines[i as int] == lines[i as int]@);
                assert(file@.lines[i as int].wf());
            }
            let line = self.apply_to_line(&lines[i]);
            replaced.push(line);
            i += 1;
        }
        MatchedFile::new(file.file_path(), replaced)
    }

    /// The files with the submatches of every line replaced.
    pub fn apply(&self, files: &Vec<MatchedFile>) -> (replaced: Vec<MatchedFile>)
        requires
            self.wf(),
            forall|i: int| 0 <= i < files.len() ==> (#[trigger] files[i]).wf(),
        ensures
            replaced.len() == files.len(),
            forall|i: int|
                0 <= i < replaced.len() ==> (#[trigger] replaced[i]).wf() && self@.replaces_file(
                    files[i]@,
                    replaced[i]@,
                ),
    {
        let mut replaced: Vec<MatchedFile> = Vec::new();
        let mut i: usize = 0;
        while i < files.len()
            invariant
                self.wf(),
                forall|k: int| 0 <= k < files.len() ==> (#[trigger] files[k]).wf(),
                i <= files.len(),
                replaced.len() == i,
                forall|k: int|
                    0 <= k < i ==> (#[trigger] replaced[k]).wf() && self@.replaces_file(
                        files[k]@,
                        replaced[k]@,
                    ),
            decreases files.len() - i,
        {
            let file = self.apply_to_file(&files[i]);
            replaced.push(file);
            i += 1;
        }
        replaced
    }
}

/// The previews of a rename: the found files with every submatch replaced as
/// the searched text and the replacement text ask: see
/// [`RenamingView::chosen`].
pub fn update_replacements(found: &Vec<MatchedFile>, find: &str, replacement: &str) -> (replaced:
    Vec<MatchedFile>)
    requires
        forall|i: int| 0 <= i < found.len() ==> (#[trigger] found[i]).wf(),
    ensures
        replaced.len() == found.len(),
        forall|i: int|
            0 <= i < replaced.len() ==> (#[trigger] replaced[i]).wf() && RenamingView::chosen(
                find@,
                replacement@,
            ).replaces_file(found[i]@, replaced[i]@),
{
    Renaming::chosen_for(find, replacement).apply(found)
}

} // verus!
