use editor::project::{FileNode, GitRootStep, GitStatus, ProjectManager, StatusEntry, StatusFlags};

#[test]
fn test_fn() {
    let f = FileNode::file("m.rs", String::from("/t/m.rs"));
    assert_eq!(f.name, "m.rs");
}

#[test]
fn test_pm() {
    let pm = ProjectManager::new();
    assert!(pm.current_file.is_none());
}

#[test]
fn file_extension_comes_from_the_path() {
    let f = FileNode::file("m.rs", String::from("/t/m.rs"));
    assert_eq!(f.extension.as_deref(), Some("rs"));
    assert!(!f.is_dir);
    let g = FileNode::file(".bashrc", String::from("/home/u/.bashrc"));
    assert_eq!(g.extension, None);
    let h = FileNode::file("a.tar.gz", String::from("a.tar.gz"));
    assert_eq!(h.extension.as_deref(), Some("gz"));
}

#[test]
fn dir_node_has_no_extension() {
    let d = FileNode::dir("src", String::from("/p/src"));
    assert!(d.is_dir);
    assert!(d.children.is_empty());
    assert_eq!(d.extension, None);
    assert_eq!(d.size, None);
}

#[test]
fn sort_puts_directories_first_then_names_ignoring_case() {
    let mut root = FileNode::dir("root", String::from("/r"));
    root.add_child(FileNode::file("b.txt", String::from("/r/b.txt")));
    root.add_child(FileNode::file("A.txt", String::from("/r/A.txt")));
    let mut sub = FileNode::dir("zeta", String::from("/r/zeta"));
    sub.add_child(FileNode::file("y", String::from("/r/zeta/y")));
    sub.add_child(FileNode::file("X", String::from("/r/zeta/X")));
    root.add_child(sub);
    root.add_child(FileNode::dir("Alpha", String::from("/r/Alpha")));
    root.sort_children();
    let names: Vec<&str> = root.children.iter().map(|c| c.name.as_str()).collect();
    assert_eq!(names, vec!["Alpha", "zeta", "A.txt", "b.txt"]);
    let inner: Vec<&str> = root.children[1].children.iter().map(|c| c.name.as_str()).collect();
    assert_eq!(inner, vec!["X", "y"]);
}

#[test]
fn sort_keeps_equal_names_in_order() {
    let mut root = FileNode::dir("root", String::from("/r"));
    root.add_child(FileNode::file("a", String::from("/r/1/a")));
    root.add_child(FileNode::file("A", String::from("/r/2/A")));
    root.sort_children();
    assert_eq!(root.children[0].path, "/r/1/a");
    assert_eq!(root.children[1].path, "/r/2/A");
}

#[test]
fn dirty_flag() {
    let mut pm = ProjectManager::default();
    pm.mark_dirty();
    assert!(pm.is_dirty);
    pm.mark_clean();
    assert!(!pm.is_dirty);
    pm.mark_dirty();
    pm.set_current_file(String::from("/x/y.rs"));
    assert!(!pm.is_dirty);
    assert_eq!(pm.current_file.as_deref(), Some("/x/y.rs"));
}

#[test]
fn status_words() {
    let none = StatusFlags {
        index_new: false,
        wt_new: false,
        index_deleted: false,
        wt_deleted: false,
        index_renamed: false,
        wt_renamed: false,
        conflicted: false,
        ignored: false,
    };
    assert_eq!(none.label(), "modified");
    assert_eq!(StatusFlags { wt_new: true, wt_deleted: true, ..none }.label(), "new");
    assert_eq!(StatusFlags { index_deleted: true, ..none }.label(), "deleted");
    assert_eq!(StatusFlags { wt_renamed: true, conflicted: true, ..none }.label(), "renamed");
    assert_eq!(StatusFlags { conflicted: true, ignored: true, ..none }.label(), "conflicted");
    assert_eq!(StatusFlags { ignored: true, ..none }.label(), "ignored");
    let renamed = StatusEntry::from_flags(String::from("b"), StatusFlags { index_renamed: true, ..none }, Some(String::from("a")));
    assert_eq!(renamed.old_path.as_deref(), Some("a"));
    let modified = StatusEntry::from_flags(String::from("b"), none, Some(String::from("a")));
    assert_eq!(modified.old_path, None);
    assert_eq!(modified.status, "modified");
}

#[test]
fn git_status_is_clean_without_entries() {
    let g = GitStatus::from_entries(None, vec![]);
    assert_eq!(g.branch, "HEAD");
    assert!(g.is_clean);
    let e = StatusEntry { path: String::from("f"), status: String::from("new"), old_path: None };
    let g2 = GitStatus::from_entries(Some(String::from("main")), vec![e]);
    assert_eq!(g2.branch, "main");
    assert!(!g2.is_clean);
}

#[test]
fn git_root_search_steps() {
    match ProjectManager::git_root_step("/a/b", true) {
        GitRootStep::Found(d) => assert_eq!(d, "/a/b"),
        other => panic!("unexpected {:?}", other),
    }
    match ProjectManager::git_root_step("/a/b", false) {
        GitRootStep::Next(d) => assert_eq!(d, "/a"),
        other => panic!("unexpected {:?}", other),
    }
    match ProjectManager::git_root_step("/", false) {
        GitRootStep::NotFound => {}
        other => panic!("unexpected {:?}", other),
    }
}

#[test]
fn entries_are_inserted_under_their_directories() {
    let pm = ProjectManager::new();
    let mut root = FileNode::dir("p", String::from("/p"));
    let src = vec![String::from("src")];
    pm.ins(&mut root, &src, 0, "/p/src", true, None);
    let main = vec![String::from("src"), String::from("main.rs")];
    pm.ins(&mut root, &main, 0, "/p/src/main.rs", false, Some(12));
    let deep = vec![String::from("docs"), String::from("a"), String::from("b.md")];
    pm.ins(&mut root, &deep, 0, "/p/docs/a/b.md", false, None);
    assert_eq!(root.children.len(), 2);
    assert_eq!(root.children[0].name, "src");
    assert_eq!(root.children[0].children.len(), 1);
    let m = &root.children[0].children[0];
    assert_eq!(m.name, "main.rs");
    assert_eq!(m.size, Some(12));
    assert_eq!(m.extension.as_deref(), Some("rs"));
    let docs = &root.children[1];
    assert!(docs.is_dir);
    assert_eq!(docs.path, "/p/docs/a/b.md");
    assert_eq!(docs.children[0].name, "a");
    assert_eq!(docs.children[0].children[0].name, "b.md");
    let none: Vec<String> = vec![];
    pm.ins(&mut root, &none, 0, "/p", true, None);
    assert_eq!(root.children.len(), 2);
}

#[test]
fn cloned_tree_is_equal() {
    let mut root = FileNode::dir("r", String::from("/r"));
    root.add_child(FileNode::file("a.rs", String::from("/r/a.rs")));
    let c = root.clone();
    assert_eq!(c.name, "r");
    assert_eq!(c.children.len(), 1);
    assert_eq!(c.children[0].extension.as_deref(), Some("rs"));
}
