use fqcn_rename::fqcn::Fqcn;
use fqcn_rename::matched_file::{Line, MatchedFile};
use fqcn_rename::search::{
    fqcn_search_pattern, ident_search_pattern, search_done, take_results, SearchAction,
    SearchState,
};

fn right_file() -> MatchedFile {
    MatchedFile::new(
        "foo/RightBaz.java",
        vec![Line::new(2, "import foo.bar.Baz;", vec![7..18])],
    )
}

fn wrong_file() -> MatchedFile {
    MatchedFile::new(
        "foo/WrongBaz.java",
        vec![
            Line::new(2, "import com.other.Baz;", vec![7..20]),
            Line::new(8, "Baz b;", vec![0..3]),
        ],
    )
}

#[test]
fn test_submit_starts_and_stops() {
    match SearchState::Idle.submit("foo.bar.Baz") {
        SearchAction::StartFqcn(fqcn) => assert_eq!("foo.bar.Baz", fqcn.value()),
        _ => panic!("a name starts a search for its parts"),
    }
    match SearchState::Idle.submit("someIdent") {
        SearchAction::StartIdent(ident) => assert_eq!("someIdent", ident),
        _ => panic!("another text starts a search for an identifier"),
    }
    match SearchState::Idle.submit("Baz") {
        SearchAction::StartIdent(ident) => assert_eq!("Baz", ident),
        _ => panic!("a name without a package starts a search for an identifier"),
    }
    assert!(matches!(
        SearchState::SearchingIdent.submit("foo.bar.Baz"),
        SearchAction::Stop
    ));
    let searching = SearchState::SearchingFqcn(Fqcn::new("foo.bar.Baz").unwrap());
    assert!(matches!(searching.submit("x"), SearchAction::Stop));
}

#[test]
fn test_take_results_of_an_identifier_search() {
    let mut found = vec![right_file()];
    assert!(take_results(
        &SearchState::SearchingIdent,
        &mut found,
        vec![wrong_file()]
    ));
    assert_eq!(vec![right_file(), wrong_file()], found);
    assert!(take_results(&SearchState::SearchingIdent, &mut found, vec![]));
    assert_eq!(2, found.len());
}

#[test]
fn test_take_results_of_a_name_search() {
    let state = SearchState::SearchingFqcn(Fqcn::new("foo.bar.Baz").unwrap());
    let mut found = Vec::new();
    assert!(!take_results(&state, &mut found, vec![wrong_file()]));
    assert!(found.is_empty());
    assert!(take_results(
        &state,
        &mut found,
        vec![wrong_file(), right_file()]
    ));
    assert_eq!(vec![right_file()], found);
}

#[test]
fn test_take_results_while_idle() {
    let mut found = Vec::new();
    assert!(!take_results(
        &SearchState::Idle,
        &mut found,
        vec![right_file()]
    ));
    assert!(found.is_empty());
}

#[test]
fn test_search_done() {
    assert!(search_done(&vec![]));
    assert!(search_done(&vec![true, true]));
    assert!(!search_done(&vec![true, false]));
}

#[test]
fn test_search_patterns() {
    let fqcn = Fqcn::new("foo.bar.Baz").unwrap();
    assert_eq!(
        r"(^package foo.bar;?$)|(\bBaz\b)|(\bfoo.bar.Baz\b)|(^import foo.bar.Baz;?$)",
        fqcn_search_pattern(&fqcn)
    );
    assert_eq!(r"\bBaz\b", ident_search_pattern("Baz"));
}
