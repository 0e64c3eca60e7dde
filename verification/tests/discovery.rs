use activity_mcp::discovery::{base_name, is_same_path, owner, parts, project_name, Entry, Found, Part, Walker};

/// The entries of a directory among paths of directories.
fn entries(dirs: &[&str], dir: &str) -> Vec<Entry> {
    let prefix = if dir.ends_with('/') { dir.to_string() } else { format!("{dir}/") };
    dirs.iter()
        .filter_map(|d| d.strip_prefix(&prefix))
        .filter(|rest| !rest.is_empty() && !rest.contains('/'))
        .map(|rest| Entry { name: rest.to_string(), is_dir: rest != "link" })
        .collect()
}

fn discover(walker: &Walker, roots: &[&str], dirs: &[&str], git: &[&str]) -> Vec<Found> {
    let roots: Vec<String> = roots.iter().map(|r| r.to_string()).collect();
    walker.discover(&roots, |dir: &str| git.contains(&dir), |dir: &str| entries(dirs, dir))
}

#[test]
fn repositories_are_found_with_nested_submodules() {
    let dirs = [
        "/r/group", "/r/group/b", "/r/a", "/r/a/sub", "/r/a/target", "/r/a/target/x", "/r/.hidden",
        "/r/.hidden/c", "/r/deep", "/r/deep/1", "/r/deep/1/2", "/r/deep/1/2/3", "/r/link", "/r/link/z", "/s/z",
    ];
    let git = [
        "/r/a", "/r/a/sub", "/r/group/b", "/r/a/target/x", "/r/.hidden/c", "/r/deep/1/2/3", "/r/link/z", "/s/z",
    ];
    let walker = Walker::new(2, &[]);
    let names: Vec<String> = discover(&walker, &["/r"], &dirs, &git).into_iter().map(|f| f.name).collect();
    assert_eq!(names, vec!["a", "a/sub", "group/b"]);

    let found = discover(&walker, &["/r", "/s"], &dirs, &git);
    assert!(found.iter().any(|f| f.name == "s/z"));
    assert!(found.iter().any(|f| f.name == "r/a/sub"));
}

#[test]
fn deepest_project_owns_the_path() {
    let projects = vec![("/w/a".to_string(), 1), ("/w/a/sub".to_string(), 2), ("/w/ab".to_string(), 3)];
    assert_eq!(owner(&projects, "/w/a/src/main.rs"), Some(&1));
    assert_eq!(owner(&projects, "/w/a/sub/x"), Some(&2));
    assert_eq!(owner(&projects, "/w/ab/x"), Some(&3));
    assert_eq!(owner(&projects, "/w/c"), None);
}

#[test]
fn build_directories_are_not_relevant() {
    let walker = Walker::new(2, &["tmp".to_string()]);
    assert!(walker.is_relevant("/w/a/src/lib.rs"));
    assert!(walker.is_relevant("/w/a/.git/refs/heads/main"));
    assert!(!walker.is_relevant("/w/a/target/debug/x"));
    assert!(!walker.is_relevant("/w/a/web/node_modules/y"));
    assert!(!walker.is_relevant("/w/a/tmp/z"));
}

#[test]
fn a_root_may_be_a_project() {
    let walker = Walker::new(0, &[]);
    let found = discover(&walker, &["/w/app"], &["/w/app/sub"], &["/w/app", "/w/app/sub"]);
    assert_eq!(found, vec![Found { path: "/w/app".into(), name: "app".into() }]);
    let found = discover(&walker, &["/w/app", "/q"], &[], &["/w/app", "/q"]);
    assert_eq!(
        found,
        vec![Found { path: "/q".into(), name: "q".into() }, Found { path: "/w/app".into(), name: "app".into() }]
    );
}

#[test]
fn overlapping_roots_name_a_project_once() {
    let walker = Walker::new(3, &[]);
    let dirs = ["/w/a", "/w/a/b"];
    let found = discover(&walker, &["/w", "/w/a"], &dirs, &["/w/a/b"]);
    assert_eq!(found, vec![Found { path: "/w/a/b".into(), name: "w/a/b".into() }]);
}

#[test]
fn projects_come_in_the_order_of_their_components() {
    let walker = Walker::new(3, &[]);
    let dirs = ["/w/a.b", "/w/a", "/w/a/c"];
    let found = discover(&walker, &["/w"], &dirs, &["/w/a.b", "/w/a", "/w/a/c"]);
    let paths: Vec<&str> = found.iter().map(|f| f.path.as_str()).collect();
    assert_eq!(paths, vec!["/w/a", "/w/a/c", "/w/a.b"]);
}

#[test]
fn excludes_are_the_defaults_and_the_extra_ones() {
    let walker = Walker::new(4, &["tmp".to_string(), "target".to_string(), "tmp".to_string()]);
    assert_eq!(walker.max_depth, 4);
    assert_eq!(walker.excludes.len(), 13);
    assert_eq!(walker.excludes[0], "target");
    assert_eq!(walker.excludes[12], "tmp");
}

#[test]
fn paths_have_components() {
    let normal = |name: &str| Part::Normal(name.to_string());
    assert_eq!(parts("/a//b/./c/"), vec![Part::Root, normal("a"), normal("b"), normal("c")]);
    assert_eq!(parts("./a/../b"), vec![Part::Current, normal("a"), Part::Parent, normal("b")]);
    assert_eq!(parts(""), vec![]);
    assert_eq!(parts("."), vec![Part::Current]);
    assert_eq!(parts("/."), vec![Part::Root]);
    assert!(is_same_path("/a/b", "/a//b/"));
    assert!(!is_same_path("/a/b", "a/b"));
    assert!(!is_same_path("./a", "a"));
    for path in ["/a//b/./c/", "./a/../b", "", ".", "/.", "..", "a/..", "//x", "a/./b/.", ".a/b"] {
        let ours: Vec<String> = parts(path)
            .into_iter()
            .map(|p| match p {
                Part::Root => "/".to_string(),
                Part::Current => ".".to_string(),
                Part::Parent => "..".to_string(),
                Part::Normal(name) => name,
            })
            .collect();
        let std: Vec<String> = std::path::Path::new(path)
            .components()
            .map(|c| c.as_os_str().to_string_lossy().into_owned())
            .collect();
        assert_eq!(ours, std, "{path}");
    }
}

#[test]
fn directories_have_names() {
    assert_eq!(base_name("/w/app"), "app");
    assert_eq!(base_name("/w/app/"), "app");
    assert_eq!(base_name("/"), "/");
    assert_eq!(base_name("a/.."), "a/..");
    assert_eq!(project_name("/w", "a/b", false), "a/b");
    assert_eq!(project_name("/w", "a/b", true), "w/a/b");
    assert_eq!(project_name("/w", "", true), "w");
    assert_ne!(project_name("/x/w", "a", true), project_name("/x/v", "a", true));
}

#[test]
fn the_last_of_equally_deep_projects_owns_a_path() {
    let projects = vec![("/w/a".to_string(), 1), ("/w//a/".to_string(), 2)];
    assert_eq!(owner(&projects, "/w/a/x"), Some(&2));
    assert_eq!(owner(&projects, "/w/a"), Some(&2));
    assert_eq!(owner::<i32>(&[], "/w/a"), None);
}
