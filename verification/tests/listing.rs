use hfs::listing::{
    list_children, list_roots, may_precede, name_le, plan_browse, sort_entries, BrowsePlan,
    DirChild, FileEntry, ProbedRoot,
};

fn entry(name: &str, is_dir: bool) -> FileEntry {
    FileEntry { name: name.to_string(), path: format!("p/{}", name), is_dir, size: None }
}

fn child(name: &str, is_dir: bool, size: Option<u64>) -> DirChild {
    DirChild { name: name.to_string(), is_dir, size }
}

fn names(entries: &[FileEntry]) -> Vec<String> {
    entries.iter().map(|e| e.name.clone()).collect()
}

fn shared(items: &[&str]) -> Vec<String> {
    items.iter().map(|s| s.to_string()).collect()
}

#[test]
fn browsing_the_top_level_lists_the_shared_roots() {
    let roots = shared(&["/srv/photos", "/srv/music"]);
    assert_eq!(plan_browse(&roots, Some("")), BrowsePlan::Roots);
    let probed = vec![
        ProbedRoot { root: "/srv/photos".to_string(), is_dir: true, is_file: false, size: None },
        ProbedRoot { root: "/srv/music".to_string(), is_dir: true, is_file: false, size: None },
    ];
    let entries = list_roots(&probed);
    assert_eq!(
        entries,
        vec![
            FileEntry { name: "music".to_string(), path: "music".to_string(), is_dir: true, size: None },
            FileEntry { name: "photos".to_string(), path: "photos".to_string(), is_dir: true, size: None },
        ]
    );
}

#[test]
fn plan_browse_tells_roots_directory_and_nothing_apart() {
    let roots = shared(&["/srv/music", "/srv/photos"]);
    assert_eq!(plan_browse(&roots, None), BrowsePlan::Roots);
    assert_eq!(plan_browse(&roots, Some("/")), BrowsePlan::Roots);
    assert_eq!(plan_browse(&roots, Some("///")), BrowsePlan::Roots);
    assert_eq!(
        plan_browse(&roots, Some("/music/rock/")),
        BrowsePlan::Directory { path: "/srv/music/rock".to_string(), request: "music/rock".to_string() }
    );
    assert_eq!(
        plan_browse(&roots, Some("photos")),
        BrowsePlan::Directory { path: "/srv/photos".to_string(), request: "photos".to_string() }
    );
    assert_eq!(plan_browse(&roots, Some("videos")), BrowsePlan::Nothing);
    assert_eq!(plan_browse(&roots, Some("videos/x")), BrowsePlan::Nothing);
}

#[test]
fn root_entries_show_sizes_of_files_only() {
    let probed = vec![
        ProbedRoot { root: "/srv/notes.txt".to_string(), is_dir: false, is_file: true, size: Some(12) },
        ProbedRoot { root: "/srv/music".to_string(), is_dir: true, is_file: false, size: Some(4096) },
        ProbedRoot { root: "/srv/gone".to_string(), is_dir: false, is_file: false, size: Some(7) },
        ProbedRoot { root: "/".to_string(), is_dir: true, is_file: false, size: None },
    ];
    let entries = list_roots(&probed);
    assert_eq!(
        entries,
        vec![
            FileEntry { name: "music".to_string(), path: "music".to_string(), is_dir: true, size: None },
            FileEntry { name: "gone".to_string(), path: "gone".to_string(), is_dir: false, size: None },
            FileEntry {
                name: "notes.txt".to_string(),
                path: "notes.txt".to_string(),
                is_dir: false,
                size: Some(12)
            },
        ]
    );
}

#[test]
fn children_are_listed_under_the_request_path() {
    let children = vec![
        child("song.mp3", false, Some(300)),
        child("rock", true, Some(4096)),
        child(".hidden", false, Some(1)),
        child(".git", true, None),
        child("a.txt", false, None),
    ];
    let entries = list_children("music", &children);
    assert_eq!(
        entries,
        vec![
            FileEntry { name: "rock".to_string(), path: "music/rock".to_string(), is_dir: true, size: None },
            FileEntry { name: "a.txt".to_string(), path: "music/a.txt".to_string(), is_dir: false, size: None },
            FileEntry {
                name: "song.mp3".to_string(),
                path: "music/song.mp3".to_string(),
                is_dir: false,
                size: Some(300)
            },
        ]
    );
}

#[test]
fn listing_of_nothing_is_empty() {
    assert_eq!(list_children("music", &vec![]), vec![]);
    assert_eq!(list_roots(&vec![]), vec![]);
    assert_eq!(list_children("music", &vec![child(".a", false, None)]), vec![]);
}

#[test]
fn directories_sort_before_files_and_names_ascend() {
    let sorted = sort_entries(vec![
        entry("b.txt", false),
        entry("zeta", true),
        entry("a.txt", false),
        entry("alpha", true),
        entry("B.txt", false),
    ]);
    assert_eq!(names(&sorted), vec!["alpha", "zeta", "B.txt", "a.txt", "b.txt"]);
    assert!(sorted[0].is_dir && sorted[1].is_dir && !sorted[2].is_dir);
}

#[test]
fn sorting_is_idempotent_and_independent_of_the_order_found() {
    let a = vec![entry("c", false), entry("a", true), entry("b", false), entry("d", true)];
    let mut b = a.clone();
    b.reverse();
    let sorted_a = sort_entries(a);
    let sorted_b = sort_entries(b);
    assert_eq!(sorted_a, sorted_b);
    assert_eq!(sort_entries(sorted_a.clone()), sorted_a);
    assert_eq!(names(&sorted_a), vec!["a", "d", "b", "c"]);
}

#[test]
fn entries_of_one_name_keep_their_order() {
    let first = FileEntry { name: "x".to_string(), path: "1".to_string(), is_dir: false, size: Some(1) };
    let second = FileEntry { name: "x".to_string(), path: "2".to_string(), is_dir: false, size: Some(2) };
    let dir = FileEntry { name: "x".to_string(), path: "3".to_string(), is_dir: true, size: None };
    let sorted = sort_entries(vec![first.clone(), second.clone(), dir.clone()]);
    assert_eq!(sorted, vec![dir.clone(), first.clone(), second.clone()]);
    let sorted = sort_entries(vec![second.clone(), dir.clone(), first.clone()]);
    assert_eq!(sorted, vec![dir, second, first]);
}

#[test]
fn sorting_agrees_with_the_standard_stable_sort() {
    let given = vec![
        entry("émile", false),
        entry("zebra", false),
        entry("Zebra", true),
        entry("", false),
        entry("a", true),
        entry("ab", false),
        entry("a", false),
        entry("日本", true),
        entry("~", false),
        entry("a b", true),
        entry("a", false),
    ];
    let mut expected = given.clone();
    expected.sort_by(|a, b| {
        if a.is_dir == b.is_dir {
            a.name.cmp(&b.name)
        } else if a.is_dir {
            std::cmp::Ordering::Less
        } else {
            std::cmp::Ordering::Greater
        }
    });
    assert_eq!(sort_entries(given), expected);
}

#[test]
fn names_compare_by_code_point() {
    assert!(name_le("", ""));
    assert!(name_le("", "a"));
    assert!(!name_le("a", ""));
    assert!(name_le("a", "a"));
    assert!(name_le("a", "ab"));
    assert!(!name_le("ab", "a"));
    assert!(name_le("B", "a"));
    assert!(!name_le("a", "B"));
    assert!(name_le("z", "é"));
    for a in ["", "a", "ab", "b", "B", "é", "日本", "~", "a/b"] {
        for b in ["", "a", "ab", "b", "B", "é", "日本", "~", "a/b"] {
            assert_eq!(name_le(a, b), a <= b, "{:?} {:?}", a, b);
        }
    }
}

#[test]
fn may_precede_puts_directories_first() {
    assert!(may_precede(&entry("z", true), &entry("a", false)));
    assert!(!may_precede(&entry("a", false), &entry("z", true)));
    assert!(may_precede(&entry("a", true), &entry("b", true)));
    assert!(!may_precede(&entry("b", false), &entry("a", false)));
}

#[test]
fn listing_ignores_the_order_in_which_children_are_read() {
    let first = vec![
        child("b.txt", false, Some(2)),
        child("sub", true, None),
        child(".hidden", false, None),
        child("a.txt", false, Some(1)),
        child("Alpha", true, None),
    ];
    let mut second = first.clone();
    second.reverse();
    second.swap(1, 3);
    let listed = list_children("music", &first);
    assert_eq!(listed, list_children("music", &second));
    assert_eq!(names(&listed), vec!["Alpha", "sub", "a.txt", "b.txt"]);
    assert_eq!(list_children("music", &first), listed);
}

#[test]
fn listed_child_paths_resolve_to_the_children() {
    let roots = shared(&["/srv/music", "/srv/photos/"]);
    for request in ["music", "music/rock", "photos", "photos/2023/05"] {
        let dir = hfs::resolver::resolve_path(&roots, request).unwrap();
        let children = vec![child("x", true, None), child("y z.txt", false, Some(3))];
        for entry in list_children(request, &children) {
            assert_eq!(
                hfs::resolver::resolve_path(&roots, &entry.path),
                Some(hfs::path::join(&dir, &entry.name)),
                "request {:?}, entry {:?}",
                request,
                entry.path
            );
        }
    }
    assert_eq!(
        hfs::resolver::resolve_path(&roots, "music/rock/x"),
        Some("/srv/music/rock/x".to_string())
    );
}
