use hfs::archive::{
    classify, stream_folder_zip, stream_selection_zip, write_event, Action, ArchiveJob, Event,
    JobPhase, Located, PathKind, Waiting,
};
use hfs::download::{PathStatus, RequestError};
use hfs::listing::DirChild;
use std::collections::HashMap;

/// A filesystem held in memory: what each path is, and what each readable
/// directory holds.
struct Disk {
    kinds: HashMap<String, PathKind>,
    dirs: HashMap<String, Vec<(String, bool)>>,
    unopenable: Vec<String>,
}

impl Disk {
    fn new() -> Disk {
        Disk { kinds: HashMap::new(), dirs: HashMap::new(), unopenable: Vec::new() }
    }

    fn file(mut self, path: &str) -> Disk {
        self.kinds.insert(path.to_string(), PathKind::File);
        self
    }

    fn dir(mut self, path: &str, children: &[(&str, bool)]) -> Disk {
        self.kinds.insert(path.to_string(), PathKind::Directory);
        self.dirs.insert(path.to_string(), children.iter().map(|(n, d)| (n.to_string(), *d)).collect());
        self
    }

    fn locked_dir(mut self, path: &str) -> Disk {
        self.kinds.insert(path.to_string(), PathKind::Directory);
        self
    }

    fn answer(&self, action: Action, written: &mut Vec<(String, String)>) -> Option<Event> {
        match action {
            Action::Classify(path) => {
                Some(Event::Found(self.kinds.get(&path).copied().unwrap_or(PathKind::Other)))
            }
            Action::ReadDir(path) => match self.dirs.get(&path) {
                Some(children) => Some(Event::Children(
                    children
                        .iter()
                        .map(|(name, is_dir)| DirChild { name: name.clone(), is_dir: *is_dir, size: None })
                        .collect(),
                )),
                None => Some(Event::Unreadable),
            },
            Action::Write { entry, builder } => {
                let described = builder.build();
                assert_eq!(described.filename().as_str().unwrap(), entry.name);
                assert_eq!(described.compression(), async_zip::Compression::Deflate);
                if self.unopenable.contains(&entry.path) {
                    Some(Event::Skipped)
                } else {
                    written.push((entry.name.clone(), entry.path.clone()));
                    Some(Event::Written)
                }
            }
            Action::Finalize => Some(Event::Finalized),
            Action::Done => None,
        }
    }
}

/// Drives `job` to its end against `disk`; returns the members written, as
/// pairs of name and source, and the number of steps taken.
fn run(job: ArchiveJob, disk: &Disk) -> (Vec<(String, String)>, usize) {
    let mut written = Vec::new();
    let (mut job, mut action) = job.step(Event::Begin);
    let mut steps = 1;
    while let Some(event) = disk.answer(action, &mut written) {
        let next = job.step(event);
        job = next.0;
        action = next.1;
        steps += 1;
        assert!(steps < 10_000);
    }
    assert_eq!(job.phase(), JobPhase::Closed);
    (written, steps)
}

/// What an action asks for, in words.
fn show(action: &Action) -> String {
    match action {
        Action::Classify(path) => format!("classify {}", path),
        Action::ReadDir(path) => format!("read {}", path),
        Action::Write { entry, .. } => format!("write {} as {}", entry.path, entry.name),
        Action::Finalize => "finalize".to_string(),
        Action::Done => "done".to_string(),
    }
}

fn names(written: &[(String, String)]) -> Vec<String> {
    let mut names: Vec<String> = written.iter().map(|(n, _)| n.clone()).collect();
    names.sort();
    names
}

fn shared() -> Vec<String> {
    vec!["/srv/music".to_string(), "/srv/photos".to_string()]
}

fn folder(target: &str) -> ArchiveJob {
    stream_folder_zip(target, PathStatus { exists: true, is_dir: true }).unwrap()
}

fn selection(requested: &[&str]) -> ArchiveJob {
    stream_selection_zip(&shared(), &requested.iter().map(|s| s.to_string()).collect())
}

#[test]
fn folder_archive_keeps_the_folder_name_on_top() {
    let disk = Disk::new()
        .dir("/shared/Docs", &[("a.txt", false), ("sub", true)])
        .dir("/shared/Docs/sub", &[("b.txt", false)]);
    let (written, _) = run(folder("/shared/Docs"), &disk);
    assert_eq!(names(&written), vec!["Docs/a.txt", "Docs/sub/b.txt"]);
    let mut sources: Vec<String> = written.iter().map(|(_, s)| s.clone()).collect();
    sources.sort();
    assert_eq!(sources, vec!["/shared/Docs/a.txt", "/shared/Docs/sub/b.txt"]);
}

#[test]
fn selection_archive_names_files_verbatim_and_folders_by_prefix() {
    let disk = Disk::new()
        .file("/srv/music/song.mp3")
        .dir("/srv/photos", &[("2023", true)])
        .dir("/srv/photos/2023", &[("img.jpg", false)]);
    let (written, _) = run(selection(&["music/song.mp3", "photos"]), &disk);
    assert_eq!(names(&written), vec!["music/song.mp3", "photos/2023/img.jpg"]);
    assert!(written.contains(&("music/song.mp3".to_string(), "/srv/music/song.mp3".to_string())));
    assert!(written.contains(&("photos/2023/img.jpg".to_string(), "/srv/photos/2023/img.jpg".to_string())));
}

#[test]
fn selection_archive_has_one_member_per_file() {
    let disk = Disk::new()
        .file("/srv/music/a.mp3")
        .file("/srv/music/b.mp3")
        .file("/srv/photos/one.jpg")
        .dir("/srv/music/rock", &[("x.mp3", false), ("live", true), ("y.mp3", false), ("empty", true)])
        .dir("/srv/music/rock/live", &[("z.mp3", false), (".cover", false)])
        .dir("/srv/music/rock/empty", &[])
        .dir("/srv/photos/2023", &[("img.jpg", false), ("raw", true)])
        .dir("/srv/photos/2023/raw", &[("img.raw", false)]);
    let requested = ["music/a.mp3", "music/rock", "music/b.mp3", "photos/2023", "photos/one.jpg"];
    let (written, _) = run(selection(&requested), &disk);
    assert_eq!(written.len(), 3 + 4 + 2);
    assert_eq!(
        names(&written),
        vec![
            "music/a.mp3",
            "music/b.mp3",
            "music/rock/live/.cover",
            "music/rock/live/z.mp3",
            "music/rock/x.mp3",
            "music/rock/y.mp3",
            "photos/2023/img.jpg",
            "photos/2023/raw/img.raw",
            "photos/one.jpg",
        ]
    );
}

#[test]
fn selection_passes_over_what_cannot_be_had() {
    let disk = Disk::new().file("/srv/music/a.mp3").dir("/srv/photos", &[("p.jpg", false)]);
    let requested = [
        "music/a.mp3",
        "music/../photos",
        "videos/film.mkv",
        "",
        "music/missing.mp3",
        "a..b",
        "photos",
    ];
    let job = selection(&requested);
    assert_eq!(
        job.items,
        vec![
            Located { path: "/srv/music/a.mp3".to_string(), name: "music/a.mp3".to_string() },
            Located { path: "/srv/music/missing.mp3".to_string(), name: "music/missing.mp3".to_string() },
            Located { path: "/srv/photos".to_string(), name: "photos".to_string() },
        ]
    );
    let (written, _) = run(job, &disk);
    assert_eq!(names(&written), vec!["music/a.mp3", "photos/p.jpg"]);
}

#[test]
fn selection_keeps_the_requested_text_as_the_name() {
    let disk = Disk::new().file("/srv/music/a.mp3").dir("/srv/photos", &[("p.jpg", false)]);
    let (written, _) = run(selection(&["/music/a.mp3", "photos/"]), &disk);
    assert_eq!(names(&written), vec!["/music/a.mp3", "photos//p.jpg"]);
}

#[test]
fn empty_selection_gives_an_empty_archive() {
    let job = selection(&[]);
    assert_eq!(job.phase(), JobPhase::Created);
    let (job, action) = job.step(Event::Begin);
    assert_eq!(show(&action), "finalize");
    assert_eq!(job.phase(), JobPhase::Finalizing);
    let (job, action) = job.step(Event::Finalized);
    assert_eq!(show(&action), "done");
    assert_eq!(job.phase(), JobPhase::Closed);
}

#[test]
fn unreadable_directory_is_passed_over() {
    let disk = Disk::new()
        .dir("/srv/music", &[("open", true), ("locked", true), ("top.mp3", false)])
        .dir("/srv/music/open", &[("in.mp3", false)])
        .locked_dir("/srv/music/locked");
    let (written, _) = run(folder("/srv/music"), &disk);
    assert_eq!(names(&written), vec!["music/open/in.mp3", "music/top.mp3"]);
}

#[test]
fn unopenable_file_is_passed_over() {
    let mut disk = Disk::new().dir("/srv/music", &[("a.mp3", false), ("b.mp3", false), ("c.mp3", false)]);
    disk.unopenable.push("/srv/music/b.mp3".to_string());
    let (written, _) = run(folder("/srv/music"), &disk);
    assert_eq!(names(&written), vec!["music/a.mp3", "music/c.mp3"]);
}

#[test]
fn folder_archive_needs_an_existing_directory() {
    assert_eq!(
        stream_folder_zip("/srv/music", PathStatus { exists: false, is_dir: false }),
        Err(RequestError::FolderNotFound)
    );
    assert_eq!(
        stream_folder_zip("/srv/music/a.mp3", PathStatus { exists: true, is_dir: false }),
        Err(RequestError::FolderNotFound)
    );
    let job = stream_folder_zip("/srv/music/", PathStatus { exists: true, is_dir: true }).unwrap();
    assert_eq!(job.waiting, Waiting::Begin);
    assert_eq!(job.stack, vec![Located { path: "/srv/music/".to_string(), name: "music".to_string() }]);
    assert!(job.items.is_empty() && job.files.is_empty());
}

#[test]
fn files_of_a_directory_are_written_in_the_order_found() {
    let job = folder("/d");
    let (job, action) = job.step(Event::Begin);
    assert_eq!(show(&action), "read /d");
    assert_eq!(job.phase(), JobPhase::Traversing);
    let children = vec![
        DirChild { name: "2".to_string(), is_dir: false, size: None },
        DirChild { name: "s".to_string(), is_dir: true, size: None },
        DirChild { name: "1".to_string(), is_dir: false, size: None },
        DirChild { name: "t".to_string(), is_dir: true, size: None },
    ];
    let (job, action) = job.step(Event::Children(children));
    assert_eq!(show(&action), "write /d/2 as d/2");
    assert_eq!(job.phase(), JobPhase::Writing);
    let (job, action) = job.step(Event::Written);
    assert_eq!(show(&action), "write /d/1 as d/1");
    let (job, action) = job.step(Event::Skipped);
    assert_eq!(show(&action), "read /d/t");
    let (job, action) = job.step(Event::Unreadable);
    assert_eq!(show(&action), "read /d/s");
    let (job, action) = job.step(Event::Children(vec![]));
    assert_eq!(show(&action), "finalize");
    assert_eq!(job.phase(), JobPhase::Finalizing);
}

#[test]
fn broken_archive_ends_the_job_at_once() {
    let job = folder("/d");
    let (job, _) = job.step(Event::Begin);
    let children = vec![
        DirChild { name: "1".to_string(), is_dir: false, size: None },
        DirChild { name: "2".to_string(), is_dir: false, size: None },
        DirChild { name: "s".to_string(), is_dir: true, size: None },
    ];
    let (job, action) = job.step(Event::Children(children));
    assert!(matches!(action, Action::Write { .. }));
    let (job, action) = job.step(Event::Broken);
    assert_eq!(show(&action), "finalize");
    assert_eq!(job.phase(), JobPhase::Finalizing);
    assert!(job.items.is_empty() && job.stack.is_empty() && job.files.is_empty());
    let (job, action) = job.step(Event::Broken);
    assert_eq!(show(&action), "done");
    assert_eq!(job.phase(), JobPhase::Closed);
    let (job, action) = job.step(Event::Begin);
    assert_eq!(show(&action), "done");
    assert_eq!(job.phase(), JobPhase::Closed);
}

#[test]
fn event_that_answers_nothing_ends_the_job() {
    let (job, action) = folder("/d").step(Event::Written);
    assert_eq!(show(&action), "finalize");
    assert!(job.stack.is_empty());
    let (job, _) = selection(&["music"]).step(Event::Begin);
    assert_eq!(job.phase(), JobPhase::Traversing);
    let (job, action) = job.step(Event::Children(vec![]));
    assert_eq!(show(&action), "finalize");
    assert_eq!(job.phase(), JobPhase::Finalizing);
}

#[test]
fn selected_item_that_is_neither_file_nor_folder_is_passed_over() {
    let (job, action) = selection(&["music/pipe", "photos/x.jpg"]).step(Event::Begin);
    assert_eq!(show(&action), "classify /srv/music/pipe");
    let (job, action) = job.step(Event::Found(PathKind::Other));
    assert_eq!(show(&action), "classify /srv/photos/x.jpg");
    let (_, action) = job.step(Event::Found(PathKind::File));
    assert_eq!(show(&action), "write /srv/photos/x.jpg as photos/x.jpg");
}

#[test]
fn folder_without_a_name_places_members_at_the_top() {
    let disk = Disk::new().dir("/.", &[("a", false), ("s", true)]).dir("/./s", &[("b", false)]);
    let (written, _) = run(folder("/."), &disk);
    assert_eq!(names(&written), vec!["a", "s/b"]);
}

#[test]
fn members_are_described_to_the_writer_by_name_and_deflated() {
    let (job, _) = folder("/srv/music").step(Event::Begin);
    let children = vec![DirChild { name: "ünï cödé.mp3".to_string(), is_dir: false, size: None }];
    let (_, action) = job.step(Event::Children(children));
    match action {
        Action::Write { entry, builder } => {
            assert_eq!(entry.path, "/srv/music/ünï cödé.mp3");
            assert_eq!(entry.name, "music/ünï cödé.mp3");
            let described = builder.build();
            assert_eq!(described.filename().as_str().unwrap(), "music/ünï cödé.mp3");
            assert_eq!(described.filename().as_bytes(), "music/ünï cödé.mp3".as_bytes());
            assert_eq!(described.compression(), async_zip::Compression::Deflate);
            assert_eq!(described.uncompressed_size(), 0);
        }
        _ => panic!("the job asks for {}", show(&action)),
    }
}

#[test]
fn selection_takes_names_with_two_dots_inside() {
    let disk = Disk::new()
        .file("/srv/music/a..b.mp3")
        .dir("/srv/photos/trip..2023", &[("x..y.jpg", false)]);
    let requested = ["music/a..b.mp3", "photos/trip..2023", "photos/../music/a..b.mp3"];
    let job = selection(&requested);
    assert_eq!(
        job.items,
        vec![
            Located { path: "/srv/music/a..b.mp3".to_string(), name: "music/a..b.mp3".to_string() },
            Located { path: "/srv/photos/trip..2023".to_string(), name: "photos/trip..2023".to_string() },
        ]
    );
    let (written, _) = run(job, &disk);
    assert_eq!(names(&written), vec!["music/a..b.mp3", "photos/trip..2023/x..y.jpg"]);
}

#[test]
fn classify_takes_a_regular_file_first() {
    assert_eq!(classify(true, false), PathKind::File);
    assert_eq!(classify(true, true), PathKind::File);
    assert_eq!(classify(false, true), PathKind::Directory);
    assert_eq!(classify(false, false), PathKind::Other);
}

#[test]
fn write_event_tells_skipped_broken_and_written_apart() {
    assert_eq!(write_event(true, true, true), Event::Written);
    assert_eq!(write_event(true, false, true), Event::Skipped);
    assert_eq!(write_event(true, true, false), Event::Broken);
    assert_eq!(write_event(true, false, false), Event::Broken);
    assert_eq!(write_event(false, true, true), Event::Skipped);
    assert_eq!(write_event(false, false, false), Event::Skipped);
    assert_eq!(write_event(false, true, false), Event::Skipped);
    assert_eq!(write_event(false, false, true), Event::Skipped);
}

#[test]
fn file_that_cannot_be_read_through_does_not_end_the_job() {
    let job = folder("/d");
    let (job, _) = job.step(Event::Begin);
    let children = vec![
        DirChild { name: "1".to_string(), is_dir: false, size: None },
        DirChild { name: "2".to_string(), is_dir: false, size: None },
    ];
    let (job, action) = job.step(Event::Children(children));
    assert_eq!(show(&action), "write /d/1 as d/1");
    let (job, action) = job.step(write_event(true, false, true));
    assert_eq!(show(&action), "write /d/2 as d/2");
    let (job, action) = job.step(write_event(true, true, false));
    assert_eq!(show(&action), "finalize");
    assert!(job.files.is_empty() && job.stack.is_empty());
}
