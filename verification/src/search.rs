//! The state of a search: what is being searched for, what the workers hand
//! in, and when the search is over.
use crate::fqcn::{parsed_fqcn, Fqcn, FqcnView};
use crate::fqcn_processor::{process_matched_file_fqcn, processed_files, Strictness};
use crate::matched_file::{files_view, MatchedFile, MatchedFileView};
use crate::text::push_text;
use vstd::prelude::*;
use vstd::string::*;
use vstd::utf8::*;

verus! {

/// What is being searched for, if anything.
pub enum SearchState {
    /// No search is running.
    Idle,
    /// The parts of a fully-qualified name are searched for.
    SearchingFqcn(Fqcn),
    /// A bare identifier is searched for.
    SearchingIdent,
}

/// What submitting the search does.
pub enum SearchAction {
    /// Start a search for the parts of the name.
    StartFqcn(Fqcn),
    /// Start a search for the text as an identifier.
    StartIdent(String),
    /// Stop the search that is running.
    Stop,
}

impl SearchState {
    /// A name that is searched for is valid.
    pub open spec fn wf(&self) -> bool {
        self matches SearchState::SearchingFqcn(fqcn) ==> fqcn.wf()
    }

    /// What submitting the search does: while no search runs, start one,
    /// for the parts of a name if the input is a name with a package, and for
    /// an identifier if not; while one runs, stop it.
    pub fn submit(&self, input: &str) -> (action: SearchAction)
        ensures
            match action {
                SearchAction::StartFqcn(fqcn) => *self is Idle && parsed_fqcn(input@) == Some(
                    fqcn@,
                ) && fqcn.wf() && fqcn@.has_package(),
                SearchAction::StartIdent(ident) => *self is Idle && !(parsed_fqcn(input@) is Some
                    && parsed_fqcn(input@).unwrap().has_package()) && ident@ == input@,
                SearchAction::Stop => !(*self is Idle),
            },
    {
        match self {
            SearchState::Idle => match Fqcn::new(input) {
                Some(fqcn) if fqcn.has_package() => SearchAction::StartFqcn(fqcn),
                _ => SearchAction::StartIdent(input.to_owned()),
            },
            _ => SearchAction::Stop,
        }
    }
}

/// The files found after a worker has handed in `results`: in a search for
/// an identifier all of them are added; in a search for a name those that
/// bear the name out, processed; with no search, none.
pub open spec fn with_results(
    state: SearchState,
    found: Seq<MatchedFileView>,
    results: Seq<MatchedFileView>,
) -> Seq<MatchedFileView> {
    match state {
        SearchState::Idle => found,
        SearchState::SearchingFqcn(fqcn) => found + processed_files(
            fqcn@,
            results,
            Strictness::Corroborated,
        ),
        SearchState::SearchingIdent => found + results,
    }
}

/// Adds what a worker has handed in to the files found: see
/// [`with_results`]. Says whether the previews have to be made anew: after
/// every hand-in of a search for an identifier, and after one of a search
/// for a name that added a file.
pub fn take_results(
    state: &SearchState,
    found: &mut Vec<MatchedFile>,
    results: Vec<MatchedFile>,
) -> (changed: bool)
    requires
        state.wf(),
        forall|i: int| 0 <= i < results.len() ==> (#[trigger] results[i]).wf(),
        forall|i: int| 0 <= i < old(found).len() ==> (#[trigger] old(found)[i]).wf(),
    ensures
        files_view(final(found)@) == with_results(
            *state,
            files_view(old(found)@),
            files_view(results@),
        ),
        forall|i: int| 0 <= i < final(found).len() ==> (#[trigger] final(found)[i]).wf(),
        changed == match *state {
            SearchState::Idle => false,
            SearchState::SearchingFqcn(_) => final(found).len() > old(found).len(),
            SearchState::SearchingIdent => true,
        },
{
    let ghost before = found@;
    match state {
        SearchState::Idle => false,
        SearchState::SearchingFqcn(fqcn) => {
            let mut kept = process_matched_file_fqcn(fqcn, results);
            let ghost added = kept@;
            let changed = kept.len() > 0;
            found.append(&mut kept);
            proof {
                assert(files_view(found@) =~= files_view(before) + files_view(added));
                assert forall|i: int| 0 <= i < found.len() implies (#[trigger] found[i]).wf() by {
                    if i < before.len() {
                        assert(found[i] == before[i]);
                    } else {
                        assert(found[i] == added[i - before.len()]);
                    }
                }
            }
            changed
        },
        SearchState::SearchingIdent => {
            let mut results = results;
            let ghost added = results@;
            found.append(&mut results);
            proof {
                assert(files_view(found@) =~= files_view(before) + files_view(added));
                assert forall|i: int| 0 <= i < found.len() implies (#[trigger] found[i]).wf() by {
                    if i < before.len() {
                        assert(found[i] == before[i]);
                    } else {
                        assert(found[i] == added[i - before.len()]);
                    }
                }
            }
            true
        },
    }
}

/// Whether the search is over: every worker has finished. With no worker
/// it is over.
pub fn search_done(finished: &Vec<bool>) -> (done: bool)
    ensures
        done == forall|i: int| 0 <= i < finished.len() ==> finished[i],
{
    let mut i: usize = 0;
    while i < finished.len()
        invariant
            i <= finished.len(),
            forall|k: int| 0 <= k < i ==> finished[k],
        decreases finished.len() - i,
    {
        if !finished[i] {
            return false;
        }
        i += 1;
    }
    true
}

/// The pattern that finds the parts of a name: the declaration of its
/// package, the identifier, the whole name, and an import of the name.
pub open spec fn fqcn_pattern(fqcn: FqcnView) -> Seq<char> {
    let package = decode_utf8(fqcn.package_bytes());
    let ident = decode_utf8(fqcn.ident_bytes());
    "(^package "@ + package + ";?$)|(\\b"@ + ident + "\\b)|(\\b"@ + fqcn.value + "\\b)|(^import "@
        + fqcn.value + ";?$)"@
}

/// The pattern that finds an identifier as a word of its own.
pub open spec fn ident_pattern(ident: Seq<char>) -> Seq<char> {
    "\\b"@ + ident + "\\b"@
}

/// The pattern to search with for the parts of `fqcn`.
pub fn fqcn_search_pattern(fqcn: &Fqcn) -> (pattern: String)
    requires
        fqcn.wf(),
    ensures
        pattern@ == fqcn_pattern(fqcn@),
{
    let package = fqcn.package();
    let ident = fqcn.ident();
    let value = fqcn.value();
    proof {
        encode_utf8_decode_utf8(package@);
        encode_utf8_decode_utf8(ident@);
    }
    let mut pattern = String::new();
    push_text(&mut pattern, "(^package ");
    push_text(&mut pattern, package);
    push_text(&mut pattern, ";?$)|(\\b");
    push_text(&mut pattern, ident);
    push_text(&mut pattern, "\\b)|(\\b");
    push_text(&mut pattern, value);
    push_text(&mut pattern, "\\b)|(^import ");
    push_text(&mut pattern, value);
    push_text(&mut pattern, ";?$)");
    proof {
        assert(pattern@ =~= fqcn_pattern(fqcn@));
    }
    pattern
}

/// The pattern to search with for `ident`.
pub fn ident_search_pattern(ident: &str) -> (pattern: String)
    ensures
        pattern@ == ident_pattern(ident@),
{
    let mut pattern = String::new();
    push_text(&mut pattern, "\\b");
    push_text(&mut pattern, ident);
    push_text(&mut pattern, "\\b");
    proof {
        assert(pattern@ =~= ident_pattern(ident@));
    }
    pattern
}

} // verus!
