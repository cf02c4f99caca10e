use hfs::path::{file_name, join};
use hfs::resolver::resolve_path;
use hfs::text::{has_dot_dot_segment, starts_with_dot, trim_slashes};
use std::path::{Path, PathBuf};

fn roots(items: &[&str]) -> Vec<String> {
    items.iter().map(|s| s.to_string()).collect()
}

fn resolve(items: &[&str], rel: &str) -> Option<String> {
    resolve_path(&roots(items), rel)
}

/// The same lookup written with the standard library's paths.
fn resolve_with_std(shared_items: &[String], relative_path: &str) -> Option<PathBuf> {
    let relative_path = relative_path.trim_matches('/');
    if relative_path.is_empty() {
        return None;
    }
    for item in shared_items {
        let item_path = PathBuf::from(item);
        let item_name = match item_path.file_name() {
            Some(name) => name.to_string_lossy(),
            None => continue,
        };
        if relative_path == item_name {
            return Some(item_path);
        } else if relative_path.starts_with(&format!("{}/", item_name)) {
            let rest = &relative_path[item_name.len() + 1..];
            return Some(item_path.join(rest));
        }
    }
    None
}

#[test]
fn share_name_alone_resolves_to_the_root() {
    assert_eq!(resolve(&["/srv/music", "/srv/photos"], "music"), Some("/srv/music".to_string()));
    assert_eq!(resolve(&["/srv/music", "/srv/photos"], "photos"), Some("/srv/photos".to_string()));
}

#[test]
fn share_name_with_suffix_resolves_below_the_root() {
    assert_eq!(
        resolve(&["/srv/music", "/srv/photos"], "music/song.mp3"),
        Some("/srv/music/song.mp3".to_string())
    );
    assert_eq!(
        resolve(&["/srv/music", "/srv/photos"], "photos/2023/img.jpg"),
        Some("/srv/photos/2023/img.jpg".to_string())
    );
}

#[test]
fn slashes_around_the_request_are_ignored() {
    assert_eq!(resolve(&["/srv/music"], "/music/"), Some("/srv/music".to_string()));
    assert_eq!(resolve(&["/srv/music"], "//music/a/b//"), Some("/srv/music/a/b".to_string()));
}

#[test]
fn empty_request_resolves_to_nothing() {
    assert_eq!(resolve(&["/srv/music"], ""), None);
    assert_eq!(resolve(&["/srv/music"], "/"), None);
    assert_eq!(resolve(&["/srv/music"], "///"), None);
    assert_eq!(resolve(&[], "music"), None);
}

#[test]
fn unknown_share_resolves_to_nothing() {
    assert_eq!(resolve(&["/srv/music", "/srv/photos"], "videos"), None);
    assert_eq!(resolve(&["/srv/music", "/srv/photos"], "videos/a"), None);
    assert_eq!(resolve(&["/srv/music"], "musicx"), None);
    assert_eq!(resolve(&["/srv/music"], "mus"), None);
    assert_eq!(resolve(&["/srv/music"], "music2/a"), None);
    assert_eq!(resolve(&["/srv/music"], "srv/music"), None);
}

#[test]
fn first_matching_root_wins() {
    assert_eq!(resolve(&["/a/share", "/b/share"], "share/x"), Some("/a/share/x".to_string()));
    assert_eq!(resolve(&["/a/share", "/b/share"], "share"), Some("/a/share".to_string()));
}

#[test]
fn root_without_share_name_is_passed_over() {
    assert_eq!(resolve(&["/", "/srv/music"], "music"), Some("/srv/music".to_string()));
    assert_eq!(resolve(&["/", "/srv/music"], "music/a.mp3"), Some("/srv/music/a.mp3".to_string()));
    assert_eq!(resolve(&["/srv/..", "", ".", "/srv/music"], "music"), Some("/srv/music".to_string()));
    assert_eq!(resolve(&["/srv/music", "/"], "music"), Some("/srv/music".to_string()));
    assert_eq!(resolve(&["/srv/music", "/"], "other"), None);
    assert_eq!(resolve(&["/", "/srv/music"], "other"), None);
    assert_eq!(resolve(&["/srv/.."], "srv"), None);
    assert_eq!(resolve(&["/"], "anything"), None);
}

#[test]
fn root_with_trailing_slash_keeps_one_separator() {
    assert_eq!(resolve(&["/srv/music/"], "music/x"), Some("/srv/music/x".to_string()));
    assert_eq!(resolve(&["/srv/music/"], "music"), Some("/srv/music/".to_string()));
}

#[test]
fn remainder_that_begins_with_a_slash_stands_for_itself() {
    assert_eq!(resolve(&["/srv/music"], "music//etc/passwd"), Some("/etc/passwd".to_string()));
}

#[test]
fn resolve_agrees_with_standard_paths() {
    let sets: Vec<Vec<String>> = vec![
        roots(&["/srv/music", "/srv/photos"]),
        roots(&["/srv/music/", "/srv/./photos/."]),
        roots(&["/a/share", "/b/share", "relative/dir"]),
        roots(&["/data/a b", "/data/ünï", "/"]),
        roots(&["/x/..", "/srv/music"]),
        roots(&[]),
    ];
    let requests = [
        "", "/", "music", "/music/", "music/song.mp3", "photos/2023/img.jpg", "share", "share/x/y",
        "dir/file", "a b/c", "ünï/cödé.txt", "music//etc/passwd", "music/./x", "music/a//b",
        "musicx", "mus", "videos", "x", "..", "music/..", "photos/.", "srv/music",
    ];
    for set in &sets {
        for request in &requests {
            let expected = resolve_with_std(set, request).map(|p| p.to_string_lossy().into_owned());
            assert_eq!(resolve_path(set, request), expected, "roots {:?}, request {:?}", set, request);
        }
    }
}

#[test]
fn file_name_agrees_with_standard_paths() {
    let inputs = [
        "/usr/bin/", "tmp/foo.txt", "foo.txt/.", "foo.txt/.//", "foo.txt/..", "/", "", ".", "..",
        "./a", "a/./b/.", "//a//", "...", "a/.../", ".hidden", "/srv/mu sic", "ünï/cödé", "/.",
        "/./", "a", "a/", "a/..", "a/../b", "..a", "a..", "/srv/music", "./", "./.", "a/b/c.tar.gz",
    ];
    for input in &inputs {
        let expected = Path::new(input).file_name().map(|n| n.to_string_lossy().into_owned());
        assert_eq!(file_name(input), expected, "path {:?}", input);
    }
}

#[test]
fn file_name_of_plain_cases() {
    assert_eq!(file_name("/srv/music"), Some("music".to_string()));
    assert_eq!(file_name("/srv/music/"), Some("music".to_string()));
    assert_eq!(file_name("/srv/music/."), Some("music".to_string()));
    assert_eq!(file_name("/srv/music/.."), None);
    assert_eq!(file_name("/"), None);
    assert_eq!(file_name(""), None);
}

#[test]
fn join_agrees_with_standard_paths() {
    let bases = ["/srv/music", "/srv/music/", "", "/", "rel", "rel/", "/a//"];
    let rests = ["x", "x/y", "/abs", "", ".", "a b", "ü/ö", "//x"];
    for base in &bases {
        for rest in &rests {
            let expected = Path::new(base).join(rest).to_string_lossy().into_owned();
            assert_eq!(join(base, rest), expected, "base {:?}, rest {:?}", base, rest);
        }
    }
}

#[test]
fn join_of_plain_cases() {
    assert_eq!(join("/srv/music", "a/b.mp3"), "/srv/music/a/b.mp3");
    assert_eq!(join("/srv/music/", "a"), "/srv/music/a");
    assert_eq!(join("/srv/music", "/etc"), "/etc");
    assert_eq!(join("", "a"), "a");
}

#[test]
fn trim_slashes_strips_both_ends_only() {
    assert_eq!(trim_slashes("/a/b/"), "a/b");
    assert_eq!(trim_slashes("///a//b///"), "a//b");
    assert_eq!(trim_slashes("a"), "a");
    assert_eq!(trim_slashes(""), "");
    assert_eq!(trim_slashes("////"), "");
    assert_eq!(trim_slashes("/ünï/"), "ünï");
    for s in ["/a/b/", "a", "", "//", "/x//y/", "é/", "/é"] {
        assert_eq!(trim_slashes(s), s.trim_matches('/'));
    }
}

#[test]
fn has_dot_dot_segment_finds_whole_segments_only() {
    assert!(has_dot_dot_segment(".."));
    assert!(has_dot_dot_segment("../a"));
    assert!(has_dot_dot_segment("a/.."));
    assert!(has_dot_dot_segment("music/../x"));
    assert!(has_dot_dot_segment("music/../../etc/passwd"));
    assert!(has_dot_dot_segment("/../"));
    assert!(has_dot_dot_segment("a//.."));
    assert!(has_dot_dot_segment("é/../é"));
    assert!(!has_dot_dot_segment(""));
    assert!(!has_dot_dot_segment("."));
    assert!(!has_dot_dot_segment("..."));
    assert!(!has_dot_dot_segment("a..b"));
    assert!(!has_dot_dot_segment("file.."));
    assert!(!has_dot_dot_segment("..file"));
    assert!(!has_dot_dot_segment("music/a..b.mp3"));
    assert!(!has_dot_dot_segment("music/..x/y.."));
    assert!(!has_dot_dot_segment("./a/./b"));
    assert!(!has_dot_dot_segment("music/song.mp3"));
    for s in ["", ".", "..", "a..", "..a", "a.b", "x/../y", "é..", "../..", "a/b/..", ".../..", "..//"] {
        assert_eq!(has_dot_dot_segment(s), s.split('/').any(|segment| segment == ".."), "{:?}", s);
    }
}

#[test]
fn starts_with_dot_marks_hidden_names() {
    assert!(starts_with_dot(".git"));
    assert!(starts_with_dot("."));
    assert!(!starts_with_dot(""));
    assert!(!starts_with_dot("a.b"));
    assert!(!starts_with_dot("é."));
}
