//! Sets of package names that keep the order in which names were added.

use vstd::prelude::*;

verus! {

/// The names of `names` without repetitions: each name stands where it came
/// first.
pub open spec fn distinct(names: Seq<Seq<char>>) -> Seq<Seq<char>>
    decreases names.len(),
{
    if names.len() == 0 {
        names
    } else {
        let before = distinct(names.drop_last());
        if before.contains(names.last()) {
            before
        } else {
            before.push(names.last())
        }
    }
}

/// Tells the names that are in `others` (`members` true) or those that are
/// not (`members` false).
pub open spec fn belongs(others: Seq<Seq<char>>, members: bool) -> spec_fn(Seq<char>) -> bool {
    |name: Seq<char>| others.contains(name) == members
}

/// The names of `names` that are in `others` (`members` true) or that are
/// not (`members` false), in the order of `names`.
pub open spec fn kept(names: Seq<Seq<char>>, others: Seq<Seq<char>>, members: bool) -> Seq<
    Seq<char>,
> {
    names.filter(belongs(others, members))
}

/// `distinct(names)` holds the names of `names`, each once.
pub proof fn lemma_distinct(names: Seq<Seq<char>>)
    ensures
        distinct(names).no_duplicates(),
        forall|name: Seq<char>| distinct(names).contains(name) <==> names.contains(name),
    decreases names.len(),
{
    if names.len() > 0 {
        let front = names.drop_last();
        let before = distinct(front);
        lemma_distinct(front);
        assert forall|name: Seq<char>| distinct(names).contains(name) <==> names.contains(
            name,
        ) by {
            if names.contains(name) {
                let i = choose|i: int| 0 <= i < names.len() && names[i] == name;
                if i < front.len() {
                    assert(front[i] == name);
                    assert(front.contains(name));
                    assert(before.contains(name));
                    let j = choose|j: int| 0 <= j < before.len() && before[j] == name;
                    assert(distinct(names)[j] == name);
                } else if !before.contains(names.last()) {
                    assert(distinct(names)[before.len() as int] == name);
                }
            }
            if distinct(names).contains(name) {
                let j = choose|j: int| 0 <= j < distinct(names).len() && distinct(names)[j] == name;
                if j < before.len() {
                    assert(before[j] == name);
                    assert(before.contains(name));
                    assert(front.contains(name));
                    let i = choose|i: int| 0 <= i < front.len() && front[i] == name;
                    assert(names[i] == name);
                } else {
                    assert(names[names.len() - 1] == name);
                }
            }
        }
    }
}

/// `kept` holds exactly the names of `names` that belong, and repeats none
/// that `names` does not repeat.
pub proof fn lemma_kept(names: Seq<Seq<char>>, others: Seq<Seq<char>>, members: bool)
    ensures
        forall|name: Seq<char>|
            kept(names, others, members).contains(name) <==> names.contains(name)
                && others.contains(name) == members,
        names.no_duplicates() ==> kept(names, others, members).no_duplicates(),
    decreases names.len(),
{
    reveal(Seq::filter);
    let keep = belongs(others, members);
    let result = kept(names, others, members);
    if names.len() > 0 {
        let front = names.drop_last();
        let before = kept(front, others, members);
        lemma_kept(front, others, members);
        assert forall|name: Seq<char>| result.contains(name) <==> names.contains(name)
            && others.contains(name) == members by {
            if names.contains(name) && keep(name) {
                let i = choose|i: int| 0 <= i < names.len() && names[i] == name;
                if i < front.len() {
                    assert(front[i] == name);
                    assert(front.contains(name));
                    assert(before.contains(name));
                    let j = choose|j: int| 0 <= j < before.len() && before[j] == name;
                    assert(result[j] == name);
                } else {
                    assert(result[before.len() as int] == name);
                }
            }
            if result.contains(name) {
                let j = choose|j: int| 0 <= j < result.len() && result[j] == name;
                if j < before.len() {
                    assert(before[j] == name);
                    assert(before.contains(name));
                    assert(front.contains(name));
                    let i = choose|i: int| 0 <= i < front.len() && front[i] == name;
                    assert(names[i] == name);
                } else {
                    assert(names[names.len() - 1] == name);
                }
            }
        }
        if names.no_duplicates() {
            assert(front.no_duplicates());
            if keep(names.last()) {
                if before.contains(names.last()) {
                    let i = choose|i: int| 0 <= i < front.len() && front[i] == names.last();
                    assert(names[i] == names[names.len() - 1]);
                }
            }
        }
    }
}

/// Whether `name` is among `names`.
fn holds(names: &Vec<String>, name: &String) -> (r: bool)
    ensures
        r == names.deep_view().contains(name@),
{
    let count = names.len();
    let mut i: usize = 0;
    while i < count
        invariant
            i <= count,
            count == names.len(),
            forall|j: int| 0 <= j < i ==> names.deep_view()[j] != name@,
        decreases count - i,
    {
        if names[i] == *name {
            assert(names.deep_view()[i as int] == name@);
            return true;
        }
        i += 1;
    }
    false
}

/// A set of package names, each held once, in the order in which they were
/// added.
#[derive(Debug)]
pub struct PackageSet {
    names: Vec<String>,
}

impl View for PackageSet {
    type V = Seq<Seq<char>>;

    closed spec fn view(&self) -> Seq<Seq<char>> {
        self.names.deep_view()
    }
}

impl PackageSet {
    /// No name is held twice.
    #[verifier::type_invariant]
    pub open spec fn well_formed(&self) -> bool {
        self@.no_duplicates()
    }

    /// The empty set.
    pub fn new() -> (set: PackageSet)
        ensures
            set@ == Seq::<Seq<char>>::empty(),
    {
        let names: Vec<String> = Vec::new();
        assert(names.deep_view() =~= Seq::<Seq<char>>::empty());
        PackageSet { names }
    }

    /// The set of the given names; a name that is given again is passed
    /// over.
    pub fn from_names(given: &Vec<String>) -> (set: PackageSet)
        ensures
            set@ == distinct(given.deep_view()),
    {
        let mut names: Vec<String> = Vec::new();
        let count = given.len();
        let mut i: usize = 0;
        proof {
            assert(given.deep_view().take(0) =~= Seq::<Seq<char>>::empty());
            assert(names.deep_view() =~= Seq::<Seq<char>>::empty());
        }
        while i < count
            invariant
                i <= count,
                count == given.len(),
                names.deep_view() == distinct(given.deep_view().take(i as int)),
            decreases count - i,
        {
            let name = &given[i];
            proof {
                let next = given.deep_view().take(i + 1);
                assert(next.drop_last() =~= given.deep_view().take(i as int));
                assert(next.last() == name@);
            }
            if !holds(&names, name) {
                let ghost before = names.deep_view();
                names.push(name.clone());
                assert(names.deep_view() =~= before.push(name@));
            }
            i += 1;
        }
        proof {
            assert(given.deep_view().take(count as int) =~= given.deep_view());
            lemma_distinct(given.deep_view());
        }
        PackageSet { names }
    }

    /// How many names the set holds.
    pub fn len(&self) -> (n: usize)
        ensures
            n == self@.len(),
    {
        self.names.len()
    }

    /// Whether the set holds no name.
    pub fn is_empty(&self) -> (r: bool)
        ensures
            r == (self@.len() == 0),
    {
        self.names.len() == 0
    }

    /// The names, in the order in which they were added.
    pub fn names(&self) -> (names: &Vec<String>)
        ensures
            names.deep_view() == self@,
            self@.no_duplicates(),
    {
        proof {
            use_type_invariant(self);
        }
        &self.names
    }

    /// A copy of the names, in the order in which they were added.
    pub fn to_vec(&self) -> (names: Vec<String>)
        ensures
            names.deep_view() == self@,
    {
        let mut names: Vec<String> = Vec::new();
        let count = self.names.len();
        let mut i: usize = 0;
        while i < count
            invariant
                i <= count,
                count == self.names.len(),
                names.deep_view() == self@.take(i as int),
            decreases count - i,
        {
            let ghost before = names.deep_view();
            names.push(self.names[i].clone());
            assert(names.deep_view() =~= before.push(self.names[i as int]@));
            assert(self@.take(i + 1) =~= self@.take(i as int).push(self@[i as int]));
            i += 1;
        }
        proof {
            assert(self@.take(count as int) =~= self@);
        }
        names
    }

    /// Whether the set holds `name`.
    pub fn contains(&self, name: &str) -> (r: bool)
        ensures
            r == self@.contains(name@),
    {
        let wanted = name.to_owned();
        holds(&self.names, &wanted)
    }

    /// The names of this set that `others` holds (`members` true) or does
    /// not hold (`members` false), in this set's order.
    pub fn keep(&self, others: &PackageSet, members: bool) -> (set: PackageSet)
        ensures
            set@ == kept(self@, others@, members),
    {
        let mut names: Vec<String> = Vec::new();
        let count = self.names.len();
        let mut i: usize = 0;
        proof {
            reveal(Seq::filter);
            assert(self@.take(0) =~= Seq::<Seq<char>>::empty());
            assert(names.deep_view() =~= Seq::<Seq<char>>::empty());
        }
        while i < count
            invariant
                i <= count,
                count == self.names.len(),
                names.deep_view() == kept(self@.take(i as int), others@, members),
            decreases count - i,
        {
            let name = &self.names[i];
            proof {
                assert(self@.take(i + 1) =~= self@.take(i as int).push(name@));
                self@.take(i as int).lemma_filter_push(name@, belongs(others@, members));
            }
            if others.contains(name.as_str()) == members {
                let ghost before = names.deep_view();
                names.push(name.clone());
                assert(names.deep_view() =~= before.push(name@));
            }
            i += 1;
        }
        proof {
            assert(self@.take(count as int) =~= self@);
            use_type_invariant(self);
            lemma_kept(self@, others@, members);
        }
        PackageSet { names }
    }

    /// The names of this set that `others` does not hold.
    pub fn without(&self, others: &PackageSet) -> (set: PackageSet)
        ensures
            set@ == kept(self@, others@, false),
    {
        self.keep(others, false)
    }

    /// The names of this set that `others` holds too.
    pub fn within(&self, others: &PackageSet) -> (set: PackageSet)
        ensures
            set@ == kept(self@, others@, true),
    {
        self.keep(others, true)
    }
}

} // verus!
