use gitshrub::projects::{add_project, add_project_named, prune_missing, ProjectList, RecentProject, MAX_RECENT};

fn paths(l: &ProjectList) -> Vec<&str> {
    l.recent.iter().map(|p| p.path.as_str()).collect()
}

#[test]
fn adding_moves_to_front_without_duplicates() {
    let mut list = ProjectList::default();
    add_project(&mut list, "/home/u/one");
    add_project(&mut list, "/home/u/two");
    add_project(&mut list, "/home/u/one");
    assert_eq!(paths(&list), vec!["/home/u/one", "/home/u/two"]);
    assert_eq!(list.recent[0].name, "one");
    assert_eq!(list.recent[1].name, "two");
}

#[test]
fn name_falls_back_to_the_path() {
    let mut list = ProjectList::default();
    add_project(&mut list, "/");
    assert_eq!(list.recent[0].name, "/");
    add_project(&mut list, "/srv/repo/");
    assert_eq!(list.recent[0].name, "repo");
}

#[test]
fn list_is_capped() {
    let mut list = ProjectList::default();
    for i in 0..60 {
        add_project_named(&mut list, &format!("/p/{}", i), format!("p{}", i));
    }
    assert_eq!(list.recent.len(), MAX_RECENT);
    assert_eq!(list.recent[0].path, "/p/59");
    assert_eq!(list.recent[49].path, "/p/10");
}

#[test]
fn pruning_keeps_existing_in_order() {
    let mut list = ProjectList {
        recent: vec![
            RecentProject { path: "/a".to_string(), name: "a".to_string() },
            RecentProject { path: "/b".to_string(), name: "b".to_string() },
            RecentProject { path: "/c".to_string(), name: "c".to_string() },
        ],
    };
    prune_missing(&mut list, &vec!["/b".to_string(), "/zzz".to_string()]);
    assert_eq!(paths(&list), vec!["/a", "/c"]);
    prune_missing(&mut list, &vec![]);
    assert_eq!(paths(&list), vec!["/a", "/c"]);
}
