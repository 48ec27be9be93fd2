use bolt::vfs::{escape_join, Component, RelativeFs};

fn names(list: &[&str]) -> Vec<String> {
    list.iter().map(|s| s.to_string()).collect()
}

fn normal(name: &str) -> Component {
    Component::Normal(name.to_string())
}

#[test]
fn names_are_added_to_the_root() {
    let joined = escape_join(names(&["srv", "www"]), &vec![normal("a"), normal("b.txt")], 0);
    assert_eq!(joined, names(&["srv", "www", "a", "b.txt"]));
    assert_eq!(escape_join(names(&["srv"]), &vec![], 0), names(&["srv"]));
}

#[test]
fn parent_takes_back_only_what_the_path_added() {
    let path = vec![
        normal("a"),
        Component::ParentDir,
        Component::ParentDir,
        Component::ParentDir,
        normal("b"),
    ];
    assert_eq!(escape_join(names(&["srv", "www"]), &path, 0), names(&["srv", "www", "b"]));
    let path = vec![Component::ParentDir, Component::ParentDir];
    assert_eq!(escape_join(names(&["srv", "www"]), &path, 0), names(&["srv", "www"]));
    let path = vec![normal("a"), normal("b"), Component::ParentDir, normal("c")];
    assert_eq!(escape_join(names(&["srv"]), &path, 0), names(&["srv", "a", "c"]));
}

#[test]
fn prefix_and_current_directory_are_ignored() {
    let path = vec![Component::Prefix, Component::CurDir, normal("a"), Component::CurDir];
    assert_eq!(escape_join(names(&["srv"]), &path, 0), names(&["srv", "a"]));
}

#[test]
fn the_root_directory_leads_to_the_served_root() {
    let path = vec![Component::RootDir, normal("x")];
    assert_eq!(escape_join(names(&["srv", "www"]), &path, 0), names(&["srv", "www", "x"]));
    assert_eq!(
        escape_join(names(&["srv", "www", "sub", "dir"]), &path, 2),
        names(&["srv", "www", "x"])
    );
    let path = vec![Component::RootDir, Component::ParentDir, normal("x")];
    assert_eq!(escape_join(names(&["srv", "www", "sub"]), &path, 1), names(&["srv", "www", "x"]));
}

#[test]
fn a_new_root_serves_from_itself() {
    let fs = RelativeFs::new(names(&["srv", "www"]));
    assert_eq!(fs.root, names(&["srv", "www"]));
    assert_eq!(fs.depth, 0);
    let path = vec![Component::RootDir, Component::ParentDir, normal("etc"), normal("passwd")];
    assert_eq!(fs.resolve(&path), names(&["srv", "www", "etc", "passwd"]));
    assert_eq!(fs.resolve(&vec![Component::ParentDir]), names(&["srv", "www"]));
}
