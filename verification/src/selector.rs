//! Assigning bump kinds to many packages at once.
//!
//! Three selections decide the bump of every package: the packages that get
//! a major bump, the packages that a change touches, and, of the touched ones
//! that are left, those that get a minor bump. What is then still left gets
//! a patch bump. A package can get a major bump only if the change touches
//! it. `bucket` computes the releases from the three selections; `Selector`
//! says which question to ask next and what to do with its answer, for
//! callers that collect the selections one by one.

use crate::changeset::{Changeset, ChangesetView, Release, ReleaseView};
use crate::package_set::{distinct, kept, lemma_distinct, lemma_kept, PackageSet};
use crate::semver_type::SemverType;
use vstd::prelude::*;

verus! {

/// One release of kind `kind` for each of `packages`, in their order.
pub open spec fn with_kind(packages: Seq<Seq<char>>, kind: SemverType) -> Seq<ReleaseView> {
    packages.map_values(|package: Seq<char>| ReleaseView { kind, package })
}

/// The releases that three selections stand for: a major bump for each of
/// `majors`; then, of the packages of `touched` that are not in `majors`, a
/// minor bump for those in `minors`; then a patch bump for the others.
pub open spec fn bucketed(
    touched: Seq<Seq<char>>,
    majors: Seq<Seq<char>>,
    minors: Seq<Seq<char>>,
) -> Seq<ReleaseView> {
    let rest = kept(touched, majors, false);
    with_kind(majors, SemverType::Major) + with_kind(kept(rest, minors, true), SemverType::Minor)
        + with_kind(kept(rest, minors, false), SemverType::Patch)
}

/// The kind that the three selections give to `package`, if any: major
/// before minor before patch.
pub open spec fn kind_of(
    touched: Seq<Seq<char>>,
    majors: Seq<Seq<char>>,
    minors: Seq<Seq<char>>,
    package: Seq<char>,
) -> Option<SemverType> {
    if majors.contains(package) {
        Some(SemverType::Major)
    } else if !touched.contains(package) {
        None
    } else if minors.contains(package) {
        Some(SemverType::Minor)
    } else {
        Some(SemverType::Patch)
    }
}

/// Why selections cannot be made into releases.
#[derive(Debug, PartialEq, Eq)]
pub enum SelectionError {
    /// A package was selected for a major bump that is not among the touched
    /// packages; the value is the first such package.
    UntouchedMajor(String),
}

/// A `SelectionError` as a mathematical value.
pub ghost enum SelectionErrorView {
    UntouchedMajor(Seq<char>),
}

impl View for SelectionError {
    type V = SelectionErrorView;

    open spec fn view(&self) -> SelectionErrorView {
        match self {
            SelectionError::UntouchedMajor(package) => SelectionErrorView::UntouchedMajor(
                package@,
            ),
        }
    }
}

/// The releases that three selections stand for, or the refusal of the
/// first package of `majors` that `touched` does not hold.
pub open spec fn releases_for(
    touched: Seq<Seq<char>>,
    majors: Seq<Seq<char>>,
    minors: Seq<Seq<char>>,
) -> Result<Seq<ReleaseView>, SelectionErrorView> {
    let strays = kept(majors, touched, false);
    if strays.len() == 0 {
        Ok(bucketed(touched, majors, minors))
    } else {
        Err(SelectionErrorView::UntouchedMajor(strays[0]))
    }
}

/// What came of a bucketing, as a mathematical value.
pub open spec fn bucket_view(r: Result<Vec<Release>, SelectionError>) -> Result<
    Seq<ReleaseView>,
    SelectionErrorView,
> {
    match r {
        Ok(releases) => Ok(releases.deep_view()),
        Err(error) => Err(error@),
    }
}

/// Selections are refused exactly if a package of `majors` is not in
/// `touched`, and then for the first such package.
pub proof fn lemma_releases_for(
    touched: Seq<Seq<char>>,
    majors: Seq<Seq<char>>,
    minors: Seq<Seq<char>>,
)
    ensures
        releases_for(touched, majors, minors) is Ok <==> forall|i: int|
            0 <= i < majors.len() ==> touched.contains(#[trigger] majors[i]),
        releases_for(touched, majors, minors) matches Err(
            SelectionErrorView::UntouchedMajor(package),
        ) ==> majors.contains(package) && !touched.contains(package),
{
    let strays = kept(majors, touched, false);
    lemma_kept(majors, touched, false);
    if strays.len() == 0 {
        assert forall|i: int| 0 <= i < majors.len() implies touched.contains(
            #[trigger] majors[i],
        ) by {
            if !touched.contains(majors[i]) {
                assert(majors.contains(majors[i]));
                assert(strays.contains(majors[i]));
            }
        }
    } else {
        assert(strays.contains(strays[0]));
        let i = choose|i: int| 0 <= i < majors.len() && majors[i] == strays[0];
        assert(!touched.contains(majors[i]));
    }
}

/// `with_kind` holds a release exactly if its kind is `kind` and its package
/// is among `packages`.
pub proof fn lemma_with_kind(packages: Seq<Seq<char>>, kind: SemverType)
    ensures
        forall|release: ReleaseView|
            with_kind(packages, kind).contains(release) <==> release.kind == kind
                && packages.contains(release.package),
{
    let releases = with_kind(packages, kind);
    assert forall|release: ReleaseView|
        releases.contains(release) <==> release.kind == kind && packages.contains(
            release.package,
        ) by {
        if releases.contains(release) {
            let i = choose|i: int| 0 <= i < releases.len() && releases[i] == release;
            assert(packages[i] == release.package);
        }
        if release.kind == kind && packages.contains(release.package) {
            let i = choose|i: int| 0 <= i < packages.len() && packages[i] == release.package;
            assert(releases[i] == release);
        }
    }
}

/// The releases of three selections hold a release exactly if its kind is
/// the one that the selections give to its package.
pub proof fn lemma_bucketed_kinds(
    touched: Seq<Seq<char>>,
    majors: Seq<Seq<char>>,
    minors: Seq<Seq<char>>,
)
    ensures
        forall|release: ReleaseView|
            bucketed(touched, majors, minors).contains(release) <==> kind_of(
                touched,
                majors,
                minors,
                release.package,
            ) == Some(release.kind),
{
    let rest = kept(touched, majors, false);
    let first = with_kind(majors, SemverType::Major);
    let second = with_kind(kept(rest, minors, true), SemverType::Minor);
    let third = with_kind(kept(rest, minors, false), SemverType::Patch);
    let all = bucketed(touched, majors, minors);
    lemma_kept(touched, majors, false);
    lemma_kept(rest, minors, true);
    lemma_kept(rest, minors, false);
    lemma_with_kind(majors, SemverType::Major);
    lemma_with_kind(kept(rest, minors, true), SemverType::Minor);
    lemma_with_kind(kept(rest, minors, false), SemverType::Patch);
    assert forall|release: ReleaseView|
        all.contains(release) <==> first.contains(release) || second.contains(release)
            || third.contains(release) by {
        if all.contains(release) {
            let i = choose|i: int| 0 <= i < all.len() && all[i] == release;
            if i < first.len() {
                assert(first[i] == release);
            } else if i < first.len() + second.len() {
                assert(second[i - first.len()] == release);
            } else {
                assert(third[i - first.len() - second.len()] == release);
            }
        }
        if first.contains(release) {
            let i = choose|i: int| 0 <= i < first.len() && first[i] == release;
            assert(all[i] == release);
        }
        if second.contains(release) {
            let i = choose|i: int| 0 <= i < second.len() && second[i] == release;
            assert(all[first.len() + i] == release);
        }
        if third.contains(release) {
            let i = choose|i: int| 0 <= i < third.len() && third[i] == release;
            assert(all[first.len() + second.len() + i] == release);
        }
    }
}

/// Selections that name no package twice give no package two releases.
pub proof fn lemma_bucketed_distinct(
    touched: Seq<Seq<char>>,
    majors: Seq<Seq<char>>,
    minors: Seq<Seq<char>>,
)
    requires
        touched.no_duplicates(),
        majors.no_duplicates(),
    ensures
        forall|i: int, j: int|
            0 <= i < j < bucketed(touched, majors, minors).len() ==> bucketed(
                touched,
                majors,
                minors,
            )[i].package != bucketed(touched, majors, minors)[j].package,
{
    let rest = kept(touched, majors, false);
    let second = kept(rest, minors, true);
    let third = kept(rest, minors, false);
    let all = bucketed(touched, majors, minors);
    lemma_kept(touched, majors, false);
    lemma_kept(rest, minors, true);
    lemma_kept(rest, minors, false);
    let packages = majors + second + third;
    assert forall|i: int| 0 <= i < all.len() implies #[trigger] all[i].package == packages[i] by {}
    assert forall|i: int, j: int| 0 <= i < j < all.len() implies all[i].package
        != all[j].package by {
        let a = majors.len() as int;
        let b = a + second.len() as int;
        if i < a {
            assert(majors.contains(packages[i]));
        } else if i < b {
            assert(second.contains(second[i - a]));
        } else {
            assert(third.contains(third[i - b]));
        }
        if j < a {
            assert(majors.contains(packages[j]));
        } else if j < b {
            assert(second.contains(second[j - a]));
        } else {
            assert(third.contains(third[j - b]));
        }
    }
}

/// Appends one release of kind `kind` for each package of the set.
fn push_all(releases: &mut Vec<Release>, packages: &PackageSet, kind: SemverType)
    ensures
        final(releases).deep_view() == old(releases).deep_view() + with_kind(packages@, kind),
{
    let names = packages.names();
    let count = names.len();
    let ghost start = releases.deep_view();
    let mut i: usize = 0;
    proof {
        assert(with_kind(packages@, kind).take(0) =~= Seq::<ReleaseView>::empty());
        assert(start + Seq::<ReleaseView>::empty() =~= start);
    }
    while i < count
        invariant
            i <= count,
            count == names.len(),
            names.deep_view() == packages@,
            releases.deep_view() == start + with_kind(packages@, kind).take(i as int),
        decreases count - i,
    {
        let ghost before = releases.deep_view();
        releases.push(Release { kind, package: names[i].clone() });
        proof {
            let added = with_kind(packages@, kind);
            assert(releases.deep_view() =~= before.push(
                ReleaseView { kind, package: names[i as int]@ },
            ));
            assert(added.take(i + 1) =~= added.take(i as int).push(added[i as int]));
            assert(releases.deep_view() =~= start + added.take(i + 1));
        }
        i += 1;
    }
    proof {
        let added = with_kind(packages@, kind);
        assert(added.take(count as int) =~= added);
    }
}

/// The releases that three selections stand for.
///
/// Every package of `majors` gets a major bump. Of the packages of `touched`
/// that `majors` does not hold, those in `minors` get a minor bump and the
/// others a patch bump. The releases come in that order of kinds, and within
/// a kind in the order of the set that the packages were taken from.
/// Selections in which a package of `majors` is not in `touched` are
/// refused.
pub fn bucket(touched: &PackageSet, majors: &PackageSet, minors: &PackageSet) -> (r: Result<
    Vec<Release>,
    SelectionError,
>)
    ensures
        bucket_view(r) == releases_for(touched@, majors@, minors@),
{
    let strays = majors.without(touched);
    if !strays.is_empty() {
        let names = strays.names();
        return Err(SelectionError::UntouchedMajor(names[0].clone()));
    }
    let rest = touched.without(majors);
    let mut releases: Vec<Release> = Vec::new();
    assert(releases.deep_view() =~= Seq::<ReleaseView>::empty());
    push_all(&mut releases, majors, SemverType::Major);
    push_all(&mut releases, &rest.within(minors), SemverType::Minor);
    push_all(&mut releases, &rest.without(minors), SemverType::Patch);
    assert(releases.deep_view() =~= bucketed(touched@, majors@, minors@));
    Ok(releases)
}

/// The items at the given positions, in the order of the positions; `None`
/// if a position is beyond the items.
pub fn pick_names(items: &Vec<String>, picks: &Vec<usize>) -> (names: Option<Vec<String>>)
    ensures
        match names {
            Some(names) => {
                &&& forall|k: int| 0 <= k < picks.len() ==> picks[k] < items.len()
                &&& names.deep_view() == picks@.map_values(
                    |pick: usize| items.deep_view()[pick as int],
                )
            },
            None => exists|k: int| 0 <= k < picks.len() && picks[k] >= items.len(),
        },
{
    let mut names: Vec<String> = Vec::new();
    let count = picks.len();
    let ghost picked = picks@.map_values(|pick: usize| items.deep_view()[pick as int]);
    let mut k: usize = 0;
    proof {
        assert(names.deep_view() =~= picked.take(0));
    }
    while k < count
        invariant
            k <= count,
            count == picks.len(),
            picked == picks@.map_values(|pick: usize| items.deep_view()[pick as int]),
            forall|j: int| 0 <= j < k ==> picks[j] < items.len(),
            names.deep_view() == picked.take(k as int),
        decreases count - k,
    {
        let pick = picks[k];
        if pick >= items.len() {
            return None;
        }
        let ghost before = names.deep_view();
        names.push(items[pick].clone());
        proof {
            assert(names.deep_view() =~= before.push(items[pick as int]@));
            assert(picked.take(k + 1) =~= picked.take(k as int).push(picked[k as int]));
        }
        k += 1;
    }
    proof {
        assert(picked.take(count as int) =~= picked);
    }
    Some(names)
}

/// What is asked of whoever makes the selections.
#[derive(Debug, PartialEq, Eq, Copy, Clone, Structural)]
pub enum Question {
    /// Which packages the change touches.
    Touched,
    /// Which packages get a major bump.
    Majors,
    /// Which of the packages that are left get a minor bump.
    Minors,
    /// What the summary of the change is.
    Summary,
}

impl Question {
    /// The words of the question.
    pub open spec fn wording(self) -> Seq<char> {
        match self {
            Question::Touched => "What packages would you like to create a changeset for?"@,
            Question::Majors => "What packages should have a major bump?"@,
            Question::Minors => "What packages should have a minor bump?"@,
            Question::Summary => "What is the summary of your changes?"@,
        }
    }

    /// The words of the question.
    pub fn text(&self) -> (text: &'static str)
        ensures
            text@ == self.wording(),
    {
        match self {
            Question::Touched => "What packages would you like to create a changeset for?",
            Question::Majors => "What packages should have a major bump?",
            Question::Minors => "What packages should have a minor bump?",
            Question::Summary => "What is the summary of your changes?",
        }
    }
}

/// What the caller is to do next.
#[derive(Debug)]
pub enum Request {
    /// Ask which of `items` are meant by `question`, and answer with the
    /// chosen ones.
    Choose { question: Question, items: Vec<String> },
    /// Ask for the summary, and answer with it.
    Describe,
    /// Nothing more: the changeset is made.
    Finished(Changeset),
    /// Nothing more: the selections were refused, and no changeset is made.
    Refused(SelectionError),
    /// Nothing more: no changeset is made.
    Aborted,
}

/// A `Request` as a mathematical value.
pub ghost enum RequestView {
    Choose { question: Question, items: Seq<Seq<char>> },
    Describe,
    Finished(ChangesetView),
    Refused(SelectionErrorView),
    Aborted,
}

impl View for Request {
    type V = RequestView;

    open spec fn view(&self) -> RequestView {
        match self {
            Request::Choose { question, items } => RequestView::Choose {
                question: *question,
                items: items.deep_view(),
            },
            Request::Describe => RequestView::Describe,
            Request::Finished(changeset) => RequestView::Finished(changeset@),
            Request::Refused(error) => RequestView::Refused(error@),
            Request::Aborted => RequestView::Aborted,
        }
    }
}

/// What came of a request.
#[derive(Debug)]
pub enum Answer {
    /// The items that were chosen.
    Chosen(Vec<String>),
    /// The text that was given.
    Described(String),
    /// Nothing: the request was given up.
    Cancelled,
}

/// An `Answer` as a mathematical value.
pub ghost enum AnswerView {
    Chosen(Seq<Seq<char>>),
    Described(Seq<char>),
    Cancelled,
}

impl View for Answer {
    type V = AnswerView;

    open spec fn view(&self) -> AnswerView {
        match self {
            Answer::Chosen(names) => AnswerView::Chosen(names.deep_view()),
            Answer::Described(text) => AnswerView::Described(text@),
            Answer::Cancelled => AnswerView::Cancelled,
        }
    }
}

/// How far the making of a changeset has come.
#[derive(Debug)]
pub enum Selector {
    /// The packages of the major bump are being asked for.
    Majors { candidates: PackageSet },
    /// The touched packages are being asked for.
    Touched { candidates: PackageSet, majors: PackageSet },
    /// The packages of the minor bump are being asked for.
    Minors { touched: PackageSet, majors: PackageSet },
    /// The summary is being asked for.
    Summary { releases: Vec<Release> },
    /// Nothing is being asked for.
    Closed,
}

/// A `Selector` as a mathematical value.
pub ghost enum SelectorView {
    Majors { candidates: Seq<Seq<char>> },
    Touched { candidates: Seq<Seq<char>>, majors: Seq<Seq<char>> },
    Minors { touched: Seq<Seq<char>>, majors: Seq<Seq<char>> },
    Summary { releases: Seq<ReleaseView> },
    Closed,
}

impl View for Selector {
    type V = SelectorView;

    open spec fn view(&self) -> SelectorView {
        match self {
            Selector::Majors { candidates } => SelectorView::Majors { candidates: candidates@ },
            Selector::Touched { candidates, majors } => SelectorView::Touched {
                candidates: candidates@,
                majors: majors@,
            },
            Selector::Minors { touched, majors } => SelectorView::Minors {
                touched: touched@,
                majors: majors@,
            },
            Selector::Summary { releases } => SelectorView::Summary {
                releases: releases.deep_view(),
            },
            Selector::Closed => SelectorView::Closed,
        }
    }
}

/// Where the releases of selections lead: to the question for the summary,
/// or, for selections that are refused, to the end.
pub open spec fn settled(releases: Result<Seq<ReleaseView>, SelectionErrorView>) -> (
    SelectorView,
    RequestView,
) {
    match releases {
        Ok(releases) => (SelectorView::Summary { releases }, RequestView::Describe),
        Err(error) => (SelectorView::Closed, RequestView::Refused(error)),
    }
}

/// Where an answer leads, and what is to be done next.
///
/// The packages of the major bump are asked for first and the touched
/// packages second, both among all candidates. If a package of the major
/// bump is not touched, the selections are refused. The packages of the
/// minor bump are asked for among the touched packages that got no major
/// bump, and only if there is one. The summary comes last. An answer that
/// was not asked for ends the making without a changeset, and so does a
/// request that was given up.
pub open spec fn next(state: SelectorView, answer: AnswerView) -> (SelectorView, RequestView) {
    match (state, answer) {
        (SelectorView::Majors { candidates }, AnswerView::Chosen(names)) => (
            SelectorView::Touched { candidates, majors: distinct(names) },
            RequestView::Choose { question: Question::Touched, items: candidates },
        ),
        (SelectorView::Touched { candidates, majors }, AnswerView::Chosen(names)) => {
            let touched = distinct(names);
            let rest = kept(touched, majors, false);
            if kept(majors, touched, false).len() == 0 && rest.len() != 0 {
                (
                    SelectorView::Minors { touched, majors },
                    RequestView::Choose { question: Question::Minors, items: rest },
                )
            } else {
                settled(releases_for(touched, majors, Seq::empty()))
            }
        },
        (SelectorView::Minors { touched, majors }, AnswerView::Chosen(names)) => settled(
            releases_for(touched, majors, distinct(names)),
        ),
        (SelectorView::Summary { releases }, AnswerView::Described(summary)) => (
            SelectorView::Closed,
            RequestView::Finished(ChangesetView { releases, summary }),
        ),
        _ => (SelectorView::Closed, RequestView::Aborted),
    }
}

impl Selector {
    /// Begins the making of a changeset for a project with the given
    /// packages: the packages of the major bump are asked for.
    pub fn start(candidates: PackageSet) -> (r: (Selector, Request))
        ensures
            r.0@ == (SelectorView::Majors { candidates: candidates@ }),
            r.1@ == (RequestView::Choose { question: Question::Majors, items: candidates@ }),
    {
        let items = candidates.to_vec();
        (Selector::Majors { candidates }, Request::Choose { question: Question::Majors, items })
    }

    /// Goes on with the releases of the selections, or ends with their
    /// refusal.
    fn settle(releases: Result<Vec<Release>, SelectionError>) -> (r: (Selector, Request))
        ensures
            (r.0@, r.1@) == settled(bucket_view(releases)),
    {
        match releases {
            Ok(releases) => (Selector::Summary { releases }, Request::Describe),
            Err(error) => (Selector::Closed, Request::Refused(error)),
        }
    }

    /// Takes the answer to the last request and says what is to be done
    /// next.
    pub fn step(self, answer: Answer) -> (r: (Selector, Request))
        ensures
            (r.0@, r.1@) == next(self@, answer@),
    {
        match self {
            Selector::Majors { candidates } => match answer {
                Answer::Chosen(names) => {
                    let majors = PackageSet::from_names(&names);
                    let items = candidates.to_vec();
                    (
                        Selector::Touched { candidates, majors },
                        Request::Choose { question: Question::Touched, items },
                    )
                },
                _ => (Selector::Closed, Request::Aborted),
            },
            Selector::Touched { candidates, majors } => match answer {
                Answer::Chosen(names) => {
                    let touched = PackageSet::from_names(&names);
                    let rest = touched.without(&majors);
                    if majors.without(&touched).is_empty() && !rest.is_empty() {
                        let items = rest.to_vec();
                        (
                            Selector::Minors { touched, majors },
                            Request::Choose { question: Question::Minors, items },
                        )
                    } else {
                        Selector::settle(bucket(&touched, &majors, &PackageSet::new()))
                    }
                },
                _ => (Selector::Closed, Request::Aborted),
            },
            Selector::Minors { touched, majors } => match answer {
                Answer::Chosen(names) => {
                    let minors = PackageSet::from_names(&names);
                    Selector::settle(bucket(&touched, &majors, &minors))
                },
                _ => (Selector::Closed, Request::Aborted),
            },
            Selector::Summary { releases } => match answer {
                Answer::Described(summary) => (
                    Selector::Closed,
                    Request::Finished(Changeset { releases, summary }),
                ),
                _ => (Selector::Closed, Request::Aborted),
            },
            Selector::Closed => (Selector::Closed, Request::Aborted),
        }
    }
}

/// The whole making: with the packages of the major bump, the touched
/// packages, the packages of the minor bump and the summary given in turn.
///
/// If a package of the major bump is not touched, the selections are
/// refused as soon as the touched packages are given. Otherwise the
/// changeset that comes out holds the releases of the three selections and
/// the summary as it was given, and the packages of the minor bump are
/// asked for exactly if a touched package got no major bump.
pub proof fn lemma_selection(
    candidates: Seq<Seq<char>>,
    majors: Seq<Seq<char>>,
    touched: Seq<Seq<char>>,
    minors: Seq<Seq<char>>,
    summary: Seq<char>,
)
    ensures
        ({
            let begun = SelectorView::Majors { candidates };
            let first = next(begun, AnswerView::Chosen(majors));
            let second = next(first.0, AnswerView::Chosen(touched));
            let rest = kept(distinct(touched), distinct(majors), false);
            let releases = releases_for(distinct(touched), distinct(majors), minors);
            &&& first.1 == (RequestView::Choose { question: Question::Touched, items: candidates })
            &&& releases matches Err(error) ==> second == (
                SelectorView::Closed,
                RequestView::Refused(error),
            )
            &&& releases matches Ok(releases) ==> {
                &&& rest.len() == 0 ==> {
                    &&& second.1 == RequestView::Describe
                    &&& next(second.0, AnswerView::Described(summary)).1 == RequestView::Finished(
                        ChangesetView { releases, summary },
                    )
                }
                &&& rest.len() != 0 ==> {
                    let third = next(second.0, AnswerView::Chosen(minors));
                    &&& second.1 == (RequestView::Choose {
                        question: Question::Minors,
                        items: rest,
                    })
                    &&& third.1 == RequestView::Describe
                    &&& next(third.0, AnswerView::Described(summary)).1 == RequestView::Finished(
                        ChangesetView { releases, summary },
                    )
                }
            }
        }),
{
    let t = distinct(touched);
    let m = distinct(majors);
    let rest = kept(t, m, false);
    lemma_bucketed_ignores_repeats(t, m, minors);
    if rest.len() == 0 {
        lemma_kept_of_empty(minors, true);
        lemma_kept_of_empty(minors, false);
        lemma_kept_of_empty(Seq::empty(), true);
        lemma_kept_of_empty(Seq::empty(), false);
        assert(rest =~= Seq::empty());
        assert(bucketed(t, m, minors) =~= bucketed(t, m, Seq::empty()));
    }
}

/// Nothing of the empty sequence is kept.
pub proof fn lemma_kept_of_empty(others: Seq<Seq<char>>, members: bool)
    ensures
        kept(Seq::empty(), others, members) == Seq::<Seq<char>>::empty(),
{
    reveal(Seq::filter);
}

/// Only which packages `minors` holds matters to the releases, not how
/// often it holds them.
pub proof fn lemma_bucketed_ignores_repeats(
    touched: Seq<Seq<char>>,
    majors: Seq<Seq<char>>,
    minors: Seq<Seq<char>>,
)
    ensures
        bucketed(touched, majors, distinct(minors)) == bucketed(touched, majors, minors),
        releases_for(touched, majors, distinct(minors)) == releases_for(touched, majors, minors),
{
    let rest = kept(touched, majors, false);
    lemma_distinct(minors);
    lemma_kept_same_members(rest, distinct(minors), minors, true);
    lemma_kept_same_members(rest, distinct(minors), minors, false);
}

/// Two sequences that hold the same names keep the same names of a third.
pub proof fn lemma_kept_same_members(
    names: Seq<Seq<char>>,
    others: Seq<Seq<char>>,
    same: Seq<Seq<char>>,
    members: bool,
)
    requires
        forall|name: Seq<char>| others.contains(name) <==> same.contains(name),
    ensures
        kept(names, others, members) == kept(names, same, members),
    decreases names.len(),
{
    reveal(Seq::filter);
    if names.len() > 0 {
        lemma_kept_same_members(names.drop_last(), others, same, members);
    }
}

/// A request that is given up, an answer to a question that was not asked,
/// and any answer once nothing is asked for any more all end the making
/// without a changeset. A changeset comes out of one step only: the summary
/// given when it was asked for. Once a changeset has come out, or the
/// selections were refused, or the making was given up, nothing is asked for
/// any more.
pub proof fn lemma_no_partial_changeset(state: SelectorView, answer: AnswerView)
    ensures
        answer is Cancelled || state is Closed ==> next(state, answer) == (
            SelectorView::Closed,
            RequestView::Aborted,
        ),
        next(state, answer).1 is Finished <==> state is Summary && answer is Described,
        next(state, answer).1 is Finished || next(state, answer).1 is Refused || next(
            state,
            answer,
        ).1 is Aborted ==> next(state, answer).0 is Closed,
{
}

} // verus!
