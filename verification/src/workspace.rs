//! The packages of a project, as far as changesets need them: their names.

use crate::package_set::{distinct, PackageSet};
use vstd::prelude::*;

verus! {

/// A package as a project lists it: under an identifier, with a name.
#[derive(Debug)]
pub struct Package {
    pub id: String,
    pub name: String,
}

/// The name of the package listed under `id`; of several, the last.
pub open spec fn name_of(packages: Seq<(Seq<char>, Seq<char>)>, id: Seq<char>) -> Option<
    Seq<char>,
>
    decreases packages.len(),
{
    if packages.len() == 0 {
        None
    } else if packages.last().0 == id {
        Some(packages.last().1)
    } else {
        name_of(packages.drop_last(), id)
    }
}

/// The names of the packages listed under the given identifiers, in their
/// order; `None` if an identifier has no package.
pub open spec fn names_of(packages: Seq<(Seq<char>, Seq<char>)>, ids: Seq<Seq<char>>) -> Option<
    Seq<Seq<char>>,
>
    decreases ids.len(),
{
    if ids.len() == 0 {
        Some(Seq::empty())
    } else {
        match (names_of(packages, ids.drop_last()), name_of(packages, ids.last())) {
            (Some(names), Some(name)) => Some(names.push(name)),
            _ => None,
        }
    }
}

/// The packages as pairs of identifier and name.
pub open spec fn listed(packages: Seq<Package>) -> Seq<(Seq<char>, Seq<char>)> {
    packages.map_values(|package: Package| (package.id@, package.name@))
}

/// The name of the package listed under `id`; of several, the last.
pub fn find_name<'a>(packages: &'a Vec<Package>, id: &String) -> (name: Option<&'a String>)
    ensures
        match name {
            Some(name) => name_of(listed(packages@), id@) == Some(name@),
            None => name_of(listed(packages@), id@) is None,
        },
{
    let mut i = packages.len();
    proof {
        assert(listed(packages@).take(i as int) =~= listed(packages@));
    }
    while i > 0
        invariant
            i <= packages.len(),
            name_of(listed(packages@), id@) == name_of(listed(packages@).take(i as int), id@),
        decreases i,
    {
        proof {
            let front = listed(packages@).take(i as int);
            assert(front.drop_last() =~= listed(packages@).take(i - 1));
            assert(front.last() == (packages[i - 1].id@, packages[i - 1].name@));
        }
        i -= 1;
        if packages[i].id == *id {
            return Some(&packages[i].name);
        }
    }
    None
}

/// The names of a project's own packages: those of the packages that are
/// listed under the identifiers of its members. `None` if a member is not
/// among the packages.
pub fn member_names(packages: &Vec<Package>, members: &Vec<String>) -> (names: Option<PackageSet>)
    ensures
        match names {
            Some(set) => names_of(listed(packages@), members.deep_view()) matches Some(names)
                && set@ == distinct(names),
            None => names_of(listed(packages@), members.deep_view()) is None,
        },
{
    let mut names: Vec<String> = Vec::new();
    let count = members.len();
    let ghost ids = members.deep_view();
    let mut i: usize = 0;
    proof {
        assert(ids.take(0) =~= Seq::<Seq<char>>::empty());
        assert(names.deep_view() =~= Seq::<Seq<char>>::empty());
    }
    while i < count
        invariant
            i <= count,
            count == members.len(),
            ids == members.deep_view(),
            names_of(listed(packages@), ids.take(i as int)) == Some(names.deep_view()),
        decreases count - i,
    {
        proof {
            assert(ids.take(i + 1).drop_last() =~= ids.take(i as int));
            assert(ids.take(i + 1).last() == members[i as int]@);
        }
        match find_name(packages, &members[i]) {
            None => {
                proof {
                    lemma_names_of_prefix(listed(packages@), ids, i + 1);
                }
                return None;
            },
            Some(name) => {
                let ghost before = names.deep_view();
                names.push(name.clone());
                assert(names.deep_view() =~= before.push(name@));
            },
        }
        i += 1;
    }
    proof {
        assert(ids.take(count as int) =~= ids);
    }
    Some(PackageSet::from_names(&names))
}

/// If some of the first `n` identifiers has no package, the identifiers
/// have no names.
pub proof fn lemma_names_of_prefix(
    packages: Seq<(Seq<char>, Seq<char>)>,
    ids: Seq<Seq<char>>,
    n: int,
)
    requires
        0 <= n <= ids.len(),
        names_of(packages, ids.take(n)) is None,
    ensures
        names_of(packages, ids) is None,
    decreases ids.len() - n,
{
    if n < ids.len() {
        assert(ids.take(n + 1).drop_last() =~= ids.take(n));
        lemma_names_of_prefix(packages, ids, n + 1);
    } else {
        assert(ids.take(n) =~= ids);
    }
}

} // verus!
