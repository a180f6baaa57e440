use changesets::changeset::{Changeset, Release};
use changesets::package_set::PackageSet;
use changesets::selector::{
    bucket, pick_names, Answer, Question, Request, SelectionError, Selector,
};
use changesets::semver_type::SemverType;

fn names(items: &[&str]) -> Vec<String> {
    items.iter().map(|item| item.to_string()).collect()
}

fn set(items: &[&str]) -> PackageSet {
    PackageSet::from_names(&names(items))
}

fn release(package: &str, kind: SemverType) -> Release {
    Release { kind, package: package.to_string() }
}

fn sorted(mut releases: Vec<Release>) -> Vec<(String, u8)> {
    let mut pairs: Vec<(String, u8)> =
        releases.drain(..).map(|release| (release.package, release.kind.precedence())).collect();
    pairs.sort();
    pairs
}

#[test]
fn selections_are_bucketed_by_kind() {
    let touched = set(&["A", "B", "C"]);
    let majors = set(&["A"]);
    let minors = set(&["B"]);
    let releases = bucket(&touched, &majors, &minors).unwrap();
    assert_eq!(
        sorted(releases),
        vec![("A".to_string(), 2), ("B".to_string(), 1), ("C".to_string(), 0)]
    );
}

#[test]
fn buckets_come_in_the_order_major_minor_patch() {
    let touched = set(&["low-a", "mid-a", "top-a", "low-b", "top-b", "mid-b"]);
    let majors = set(&["top-b", "top-a"]);
    let minors = set(&["mid-b", "mid-a", "top-a", "elsewhere"]);
    assert_eq!(
        bucket(&touched, &majors, &minors).unwrap(),
        vec![
            release("top-b", SemverType::Major),
            release("top-a", SemverType::Major),
            release("mid-a", SemverType::Minor),
            release("mid-b", SemverType::Minor),
            release("low-a", SemverType::Patch),
            release("low-b", SemverType::Patch),
        ]
    );
}

#[test]
fn major_package_that_is_not_touched_is_refused() {
    assert_eq!(
        bucket(&set(&["B"]), &set(&["A"]), &set(&[])),
        Err(SelectionError::UntouchedMajor("A".to_string()))
    );
    assert_eq!(
        bucket(&set(&["B", "D"]), &set(&["B", "C", "D", "A"]), &set(&["B"])),
        Err(SelectionError::UntouchedMajor("C".to_string()))
    );
    assert_eq!(
        bucket(&set(&[]), &set(&["A"]), &set(&[])),
        Err(SelectionError::UntouchedMajor("A".to_string()))
    );
}

#[test]
fn untouched_minor_package_gets_no_release() {
    let releases = bucket(&set(&["A"]), &set(&[]), &set(&["B"])).unwrap();
    assert_eq!(releases, vec![release("A", SemverType::Patch)]);
}

#[test]
fn nothing_selected_gives_no_release() {
    assert_eq!(bucket(&set(&[]), &set(&[]), &set(&[])), Ok(vec![]));
    assert_eq!(bucket(&set(&[]), &set(&[]), &set(&["A"])), Ok(vec![]));
}

#[test]
fn no_package_gets_two_releases() {
    let releases =
        bucket(&set(&["A", "B", "C", "A", "D"]), &set(&["B", "B", "D"]), &set(&["A", "B"])).unwrap();
    assert_eq!(
        releases,
        vec![
            release("B", SemverType::Major),
            release("D", SemverType::Major),
            release("A", SemverType::Minor),
            release("C", SemverType::Patch),
        ]
    );
}

#[test]
fn package_set_keeps_each_name_once_in_order() {
    let set = set(&["b", "a", "b", "c", "a"]);
    assert_eq!(set.names(), &names(&["b", "a", "c"]));
    assert_eq!(set.to_vec(), names(&["b", "a", "c"]));
    assert_eq!(set.len(), 3);
    assert!(!set.is_empty());
    assert!(set.contains("a"));
    assert!(!set.contains("d"));
    assert!(!set.contains(""));
    assert!(PackageSet::new().is_empty());
    assert_eq!(PackageSet::new().len(), 0);
}

#[test]
fn package_set_difference_and_intersection() {
    let all = set(&["a", "b", "c", "d"]);
    let some = set(&["d", "b", "x"]);
    assert_eq!(all.without(&some).to_vec(), names(&["a", "c"]));
    assert_eq!(all.within(&some).to_vec(), names(&["b", "d"]));
    assert_eq!(all.keep(&some, true).to_vec(), names(&["b", "d"]));
    assert_eq!(all.keep(&some, false).to_vec(), names(&["a", "c"]));
    assert_eq!(all.without(&PackageSet::new()).to_vec(), names(&["a", "b", "c", "d"]));
    assert_eq!(all.within(&PackageSet::new()).to_vec(), names(&[]));
}

#[test]
fn pick_names_maps_positions_to_items() {
    let items = names(&["a", "b", "c"]);
    assert_eq!(pick_names(&items, &vec![2, 0]), Some(names(&["c", "a"])));
    assert_eq!(pick_names(&items, &vec![]), Some(names(&[])));
    assert_eq!(pick_names(&items, &vec![1, 1]), Some(names(&["b", "b"])));
    assert_eq!(pick_names(&items, &vec![0, 3]), None);
    assert_eq!(pick_names(&names(&[]), &vec![0]), None);
}

#[test]
fn questions_have_their_words() {
    assert_eq!(Question::Touched.text(), "What packages would you like to create a changeset for?");
    assert_eq!(Question::Majors.text(), "What packages should have a major bump?");
    assert_eq!(Question::Minors.text(), "What packages should have a minor bump?");
    assert_eq!(Question::Summary.text(), "What is the summary of your changes?");
}

fn expect_choose(request: Request, question: Question, items: &[&str]) {
    match request {
        Request::Choose { question: asked, items: offered } => {
            assert_eq!(asked, question);
            assert_eq!(offered, names(items));
        }
        other => panic!("{:?}", other),
    }
}

#[test]
fn selector_asks_the_questions_in_turn() {
    let (state, request) = Selector::start(set(&["A", "B", "C"]));
    expect_choose(request, Question::Majors, &["A", "B", "C"]);
    let (state, request) = state.step(Answer::Chosen(names(&["A"])));
    expect_choose(request, Question::Touched, &["A", "B", "C"]);
    let (state, request) = state.step(Answer::Chosen(names(&["A", "B", "C"])));
    expect_choose(request, Question::Minors, &["B", "C"]);
    let (state, request) = state.step(Answer::Chosen(names(&["B"])));
    assert!(matches!(request, Request::Describe));
    let (state, request) = state.step(Answer::Described("Summary".to_string()));
    match request {
        Request::Finished(changeset) => assert_eq!(
            changeset,
            Changeset {
                releases: vec![
                    release("A", SemverType::Major),
                    release("B", SemverType::Minor),
                    release("C", SemverType::Patch),
                ],
                summary: "Summary".to_string(),
            }
        ),
        other => panic!("{:?}", other),
    }
    assert!(matches!(state, Selector::Closed));
    let (state, request) = state.step(Answer::Described("again".to_string()));
    assert!(matches!(state, Selector::Closed));
    assert!(matches!(request, Request::Aborted));
}

#[test]
fn selector_skips_the_minor_question_when_nothing_is_left() {
    let (state, _) = Selector::start(set(&["A", "B"]));
    let (state, _) = state.step(Answer::Chosen(names(&["A", "B"])));
    let (state, request) = state.step(Answer::Chosen(names(&["B", "A"])));
    assert!(matches!(request, Request::Describe));
    let (_, request) = state.step(Answer::Described(String::new()));
    match request {
        Request::Finished(changeset) => assert_eq!(
            changeset,
            Changeset {
                releases: vec![release("A", SemverType::Major), release("B", SemverType::Major)],
                summary: String::new(),
            }
        ),
        other => panic!("{:?}", other),
    }
}

#[test]
fn selector_refuses_a_major_package_that_is_not_touched() {
    let (state, _) = Selector::start(set(&["A", "B"]));
    let (state, _) = state.step(Answer::Chosen(names(&["A"])));
    let (state, request) = state.step(Answer::Chosen(names(&["B"])));
    match request {
        Request::Refused(error) => assert_eq!(error, SelectionError::UntouchedMajor("A".to_string())),
        other => panic!("{:?}", other),
    }
    assert!(matches!(state, Selector::Closed));
    let (state, request) = state.step(Answer::Described("text".to_string()));
    assert!(matches!(state, Selector::Closed));
    assert!(matches!(request, Request::Aborted));

    let state = Selector::Minors { touched: set(&["B"]), majors: set(&["A"]) };
    let (state, request) = state.step(Answer::Chosen(names(&["B"])));
    assert!(matches!(request, Request::Refused(SelectionError::UntouchedMajor(_))));
    assert!(matches!(state, Selector::Closed));
}

#[test]
fn selector_accepts_an_empty_summary_and_keeps_it_as_given() {
    let (state, _) = Selector::start(set(&["A"]));
    let (state, _) = state.step(Answer::Chosen(names(&[])));
    let (state, request) = state.step(Answer::Chosen(names(&[])));
    assert!(matches!(request, Request::Describe));
    let (_, request) = state.step(Answer::Described("  spaced  ".to_string()));
    match request {
        Request::Finished(changeset) => {
            assert_eq!(changeset, Changeset { releases: vec![], summary: "  spaced  ".to_string() })
        }
        other => panic!("{:?}", other),
    }
}

#[test]
fn cancelling_makes_no_changeset() {
    let (state, _) = Selector::start(set(&["A"]));
    let (state, request) = state.step(Answer::Cancelled);
    assert!(matches!(request, Request::Aborted));
    assert!(matches!(state, Selector::Closed));

    let (state, _) = Selector::start(set(&["A"]));
    let (state, _) = state.step(Answer::Chosen(names(&[])));
    let (state, _) = state.step(Answer::Chosen(names(&["A"])));
    let (state, _) = state.step(Answer::Chosen(names(&[])));
    let (state, request) = state.step(Answer::Cancelled);
    assert!(matches!(request, Request::Aborted));
    assert!(matches!(state, Selector::Closed));
}

#[test]
fn answer_of_the_wrong_kind_makes_no_changeset() {
    let (state, _) = Selector::start(set(&["A"]));
    let (state, request) = state.step(Answer::Described("text".to_string()));
    assert!(matches!(request, Request::Aborted));
    assert!(matches!(state, Selector::Closed));

    let (state, _) = Selector::start(set(&["A"]));
    let (state, _) = state.step(Answer::Chosen(names(&[])));
    let (state, _) = state.step(Answer::Chosen(names(&[])));
    let (state, request) = state.step(Answer::Chosen(names(&["A"])));
    assert!(matches!(request, Request::Aborted));
    assert!(matches!(state, Selector::Closed));
}
