use changesets::artifact::{file_path, fresh_file_path, DIRECTORY};
use changesets::workspace::{find_name, member_names, Package};

fn package(id: &str, name: &str) -> Package {
    Package { id: id.to_string(), name: name.to_string() }
}

fn ids(items: &[&str]) -> Vec<String> {
    items.iter().map(|item| item.to_string()).collect()
}

#[test]
fn member_names_are_those_of_the_member_packages() {
    let packages = vec![
        package("dep 1.0", "dep"),
        package("cli 0.1", "cli"),
        package("parse 0.1", "parse"),
    ];
    let members = member_names(&packages, &ids(&["parse 0.1", "cli 0.1"])).unwrap();
    assert_eq!(members.to_vec(), ids(&["parse", "cli"]));
    assert_eq!(member_names(&packages, &ids(&[])).unwrap().to_vec(), ids(&[]));
}

#[test]
fn member_without_package_gives_nothing() {
    let packages = vec![package("cli 0.1", "cli")];
    assert!(member_names(&packages, &ids(&["cli 0.1", "gone 0.1"])).is_none());
    assert!(member_names(&vec![], &ids(&["cli 0.1"])).is_none());
}

#[test]
fn members_of_one_name_are_held_once() {
    let packages = vec![package("a 1", "a"), package("a 2", "a"), package("b 1", "b")];
    let members = member_names(&packages, &ids(&["a 1", "b 1", "a 2"])).unwrap();
    assert_eq!(members.to_vec(), ids(&["a", "b"]));
}

#[test]
fn last_package_of_an_identifier_counts() {
    let packages = vec![package("x", "first"), package("y", "other"), package("x", "second")];
    assert_eq!(find_name(&packages, &"x".to_string()), Some(&"second".to_string()));
    assert_eq!(find_name(&packages, &"y".to_string()), Some(&"other".to_string()));
    assert_eq!(find_name(&packages, &"z".to_string()), None);
}

#[test]
fn file_path_puts_the_identifier_under_the_directory() {
    assert_eq!(file_path("tame-lions-retire"), ".changeset-rs/tame-lions-retire.md");
    assert_eq!(file_path(""), ".changeset-rs/.md");
    assert_eq!(DIRECTORY, ".changeset-rs");
}

#[test]
fn fresh_file_path_holds_three_words() {
    for _ in 0..200 {
        let path = fresh_file_path();
        let id = path.strip_prefix(".changeset-rs/").unwrap().strip_suffix(".md").unwrap();
        assert!(8 <= id.len() && id.len() <= 26, "{}", id);
        let words: Vec<&str> = id.split('-').collect();
        assert_eq!(words.len(), 3);
        for word in words {
            assert!(2 <= word.len() && word.len() <= 8, "{}", id);
            assert!(word.chars().all(|c| c.is_ascii_lowercase()));
        }
    }
}
